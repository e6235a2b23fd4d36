//! Symbols and per-context frequency tables.
//!
//! A `Token` is one atomic symbol of the input alphabet. A `TokenHits` value
//! is the frequency table of one context: an ordered sequence of records, at
//! most one per distinct symbol, each carrying how often that symbol was
//! observed to follow the context.

use vstd::prelude::*;

verus! {

/// One atomic symbol: a single character, or a numeric literal.
///
/// Numeric symbols exist in the data model for forward extensibility; the
/// character tokenizer never produces one.
#[derive(Clone, Copy, Debug, PartialEq, Eq, Structural)]
pub enum Token {
    C(char),
    Num(u64),
}

/// One successor record: a symbol and its occurrence count.
#[derive(Clone, Copy, Debug, PartialEq, Eq, Structural)]
pub struct TokenEntry {
    pub value: Token,
    pub count: u64,
}

/// The frequency table of one context.
#[derive(Clone, Debug)]
pub struct TokenHits {
    pub entries: Vec<TokenEntry>,
}

impl View for TokenHits {
    type V = Seq<TokenEntry>;

    open spec fn view(&self) -> Seq<TokenEntry> {
        self.entries@
    }
}

/// Well-formedness of a frequency table: at most one record per distinct
/// symbol value.
pub open spec fn wf_hits(s: Seq<TokenEntry>) -> bool {
    forall|i: int, j: int| 0 <= i < j < s.len() ==> s[i].value != s[j].value
}

/// Whether the table has a record for symbol `t`.
pub open spec fn spec_has(s: Seq<TokenEntry>, t: Token) -> bool {
    exists|i: int| 0 <= i < s.len() && s[i].value == t
}

/// The recorded count of symbol `t`, or 0 if `t` has no record.
pub open spec fn spec_count_of(s: Seq<TokenEntry>, t: Token) -> u64
    decreases s.len(),
{
    if s.len() == 0 {
        0
    } else if s[0].value == t {
        s[0].count
    } else {
        spec_count_of(s.skip(1), t)
    }
}

/// Increment that sticks at `u64::MAX` instead of wrapping, so counts never
/// decrease.
pub open spec fn sat_inc(c: u64) -> u64 {
    if c == u64::MAX {
        c
    } else {
        (c + 1) as u64
    }
}

/// The table after observing symbol `t` once more: the first record for `t`
/// has its count incremented; if no record for `t` exists, a record with
/// count 1 is appended.
pub open spec fn spec_bump(s: Seq<TokenEntry>, t: Token) -> Seq<TokenEntry>
    decreases s.len(),
{
    if s.len() == 0 {
        seq![TokenEntry { value: t, count: 1 }]
    } else if s[0].value == t {
        seq![TokenEntry { value: t, count: sat_inc(s[0].count) }] + s.skip(1)
    } else {
        seq![s[0]] + spec_bump(s.skip(1), t)
    }
}

impl TokenHits {
    /// The empty table: the "no observations yet" state.
    pub fn new() -> (r: TokenHits)
        ensures
            r@ == Seq::<TokenEntry>::empty(),
    {
        TokenHits { entries: Vec::new() }
    }

    pub fn len(&self) -> (r: usize)
        ensures
            r == self@.len(),
    {
        self.entries.len()
    }

    pub fn get(&self, i: usize) -> (r: TokenEntry)
        requires
            i < self@.len(),
        ensures
            r == self@[i as int],
    {
        self.entries[i]
    }

    /// The recorded count of `t`, or 0 if `t` was never observed.
    pub fn count_of(&self, t: Token) -> (r: u64)
        ensures
            r == spec_count_of(self@, t),
    {
        let mut i: usize = 0;
        proof {
            assert(self@.skip(0) =~= self@);
        }
        while i < self.entries.len()
            invariant
                i <= self@.len(),
                spec_count_of(self@, t) == spec_count_of(self@.skip(i as int), t),
                forall|j: int| 0 <= j < i ==> self@[j].value != t,
            decreases self@.len() - i,
        {
            proof {
                assert(self@.skip(i as int)[0] == self@[i as int]);
                assert(self@.skip(i as int).skip(1) =~= self@.skip(i + 1));
            }
            if self.entries[i].value == t {
                return self.entries[i].count;
            }
            i += 1;
        }
        0
    }

    /// Observe symbol `t` once more after this table's context.
    pub fn bump(&mut self, t: Token)
        ensures
            final(self)@ == spec_bump(old(self)@, t),
    {
        let ghost s = self@;
        let mut i: usize = 0;
        while i < self.entries.len()
            invariant
                s == old(self)@,
                self@ == s,
                i <= s.len(),
                forall|j: int| 0 <= j < i ==> s[j].value != t,
            decreases s.len() - i,
        {
            if self.entries[i].value == t {
                let c = self.entries[i].count;
                let c2 = if c == u64::MAX {
                    c
                } else {
                    c + 1
                };
                self.entries[i] = TokenEntry { value: t, count: c2 };
                proof {
                    lemma_bump_found(s, t, i as int);
                }
                return ;
            }
            i += 1;
        }
        self.entries.push(TokenEntry { value: t, count: 1 });
        proof {
            lemma_bump_absent(s, t);
        }
    }
}

impl TokenHits {
    /// Whether the table satisfies its invariant: at most one record per
    /// distinct symbol.
    pub fn is_wf(&self) -> (r: bool)
        ensures
            r <==> wf_hits(self@),
    {
        let n = self.entries.len();
        let mut i: usize = 0;
        while i < n
            invariant
                i <= n,
                n == self@.len(),
                forall|p: int, q: int| 0 <= p < q < self@.len() && p < i ==> self@[p].value != self@[q].value,
            decreases n - i,
        {
            let mut j: usize = i + 1;
            while j < n
                invariant
                    i < j <= n,
                    n == self@.len(),
                    forall|q: int| i < q < j ==> self@[i as int].value != self@[q].value,
                decreases n - j,
            {
                if self.entries[i].value == self.entries[j].value {
                    return false;
                }
                j += 1;
            }
            i += 1;
        }
        true
    }
}

/// Bumping `t` never touches another symbol's count.
pub proof fn lemma_bump_count_other(s: Seq<TokenEntry>, t: Token, t2: Token)
    requires
        t2 != t,
    ensures
        spec_count_of(spec_bump(s, t), t2) == spec_count_of(s, t2),
    decreases s.len(),
{
    let b = spec_bump(s, t);
    if s.len() == 0 {
        assert(b[0].value == t);
        assert(b.skip(1) =~= Seq::<TokenEntry>::empty());
        assert(spec_count_of(Seq::<TokenEntry>::empty(), t2) == 0);
        assert(spec_count_of(b, t2) == spec_count_of(b.skip(1), t2));
    } else if s[0].value == t {
        assert(b[0].value == t);
        assert(b.skip(1) =~= s.skip(1));
        assert(spec_count_of(b, t2) == spec_count_of(s.skip(1), t2));
        assert(spec_count_of(s, t2) == spec_count_of(s.skip(1), t2));
    } else {
        lemma_bump_count_other(s.skip(1), t, t2);
        assert(b[0] == s[0]);
        assert(b.skip(1) =~= spec_bump(s.skip(1), t));
        if s[0].value == t2 {
            assert(spec_count_of(b, t2) == b[0].count);
        } else {
            assert(spec_count_of(b, t2) == spec_count_of(spec_bump(s.skip(1), t), t2));
            assert(spec_count_of(s, t2) == spec_count_of(s.skip(1), t2));
        }
    }
}

/// Bumping `t` raises `t`'s own count by exactly one (sticking at the
/// largest representable count).
pub proof fn lemma_bump_count_same(s: Seq<TokenEntry>, t: Token)
    ensures
        spec_count_of(spec_bump(s, t), t) == sat_inc(spec_count_of(s, t)),
    decreases s.len(),
{
    if s.len() == 0 {
        assert(spec_bump(s, t)[0].value == t);
    } else if s[0].value == t {
        assert(spec_bump(s, t)[0].value == t);
    } else {
        lemma_bump_count_same(s.skip(1), t);
        assert(spec_bump(s, t)[0] == s[0]);
        assert(spec_bump(s, t).skip(1) =~= spec_bump(s.skip(1), t));
    }
}

/// Bumping adds a record for `t` and for no other symbol.
pub proof fn lemma_bump_has(s: Seq<TokenEntry>, t: Token, x: Token)
    ensures
        spec_has(spec_bump(s, t), x) <==> (x == t || spec_has(s, x)),
    decreases s.len(),
{
    let b = spec_bump(s, t);
    if s.len() == 0 {
        assert(b[0].value == t);
        assert(spec_has(b, t));
        if x != t {
            assert(forall|i: int| 0 <= i < b.len() ==> b[i].value == t);
        }
    } else if s[0].value == t {
        assert(b[0].value == t);
        assert(b.skip(1) =~= s.skip(1));
        assert forall|i: int| 0 <= i < b.len() implies (b[i].value == t || spec_has(
            s,
            b[i].value,
        )) by {
            if i > 0 {
                assert(b[i] == s[i]);
            }
        }
        if x != t && spec_has(s, x) {
            let i = choose|i: int| 0 <= i < s.len() && s[i].value == x;
            assert(b[i] == s[i]);
        }
    } else {
        lemma_bump_has(s.skip(1), t, x);
        assert(b[0] == s[0]);
        assert(b.skip(1) =~= spec_bump(s.skip(1), t));
        if spec_has(b, x) {
            let i = choose|i: int| 0 <= i < b.len() && b[i].value == x;
            if i > 0 {
                assert(b.skip(1)[i - 1] == b[i]);
                assert(spec_has(spec_bump(s.skip(1), t), x));
            }
            if x != t && spec_has(s.skip(1), x) {
                let j = choose|j: int| 0 <= j < s.skip(1).len() && s.skip(1)[j].value == x;
                assert(s[j + 1] == s.skip(1)[j]);
            }
        }
        if x == t {
            assert(spec_has(spec_bump(s.skip(1), t), x));
            let i = choose|i: int| 0 <= i < spec_bump(s.skip(1), t).len() && spec_bump(
                s.skip(1),
                t,
            )[i].value == x;
            assert(b[i + 1] == spec_bump(s.skip(1), t)[i]);
        }
        if spec_has(s, x) {
            let i = choose|i: int| 0 <= i < s.len() && s[i].value == x;
            if i == 0 {
                assert(b[0].value == x);
            } else {
                assert(s.skip(1)[i - 1] == s[i]);
                assert(spec_has(spec_bump(s.skip(1), t), x));
                let j = choose|j: int| 0 <= j < spec_bump(s.skip(1), t).len() && spec_bump(
                    s.skip(1),
                    t,
                )[j].value == x;
                assert(b[j + 1] == spec_bump(s.skip(1), t)[j]);
            }
        }
    }
}

/// Bumping preserves the one-record-per-symbol invariant.
pub proof fn lemma_bump_wf(s: Seq<TokenEntry>, t: Token)
    requires
        wf_hits(s),
    ensures
        wf_hits(spec_bump(s, t)),
    decreases s.len(),
{
    let b = spec_bump(s, t);
    if s.len() == 0 {
    } else if s[0].value == t {
        assert(b.skip(1) =~= s.skip(1));
        assert forall|i: int, j: int| 0 <= i < j < b.len() implies b[i].value != b[j].value by {
            if i > 0 {
                assert(b[i] == s[i]);
            }
            assert(b[j] == s[j]);
        }
    } else {
        assert(wf_hits(s.skip(1)));
        lemma_bump_wf(s.skip(1), t);
        assert(b[0] == s[0]);
        assert(b.skip(1) =~= spec_bump(s.skip(1), t));
        assert(!spec_has(s.skip(1), s[0].value)) by {
            if spec_has(s.skip(1), s[0].value) {
                let i = choose|i: int| 0 <= i < s.skip(1).len() && s.skip(1)[i].value == s[0].value;
                assert(s[i + 1] == s.skip(1)[i]);
            }
        }
        lemma_bump_has(s.skip(1), t, s[0].value);
        assert forall|i: int, j: int| 0 <= i < j < b.len() implies b[i].value != b[j].value by {
            if i == 0 {
                assert(b.skip(1)[j - 1] == b[j]);
                if b[j].value == s[0].value {
                    assert(spec_has(spec_bump(s.skip(1), t), s[0].value));
                }
            } else {
                assert(b.skip(1)[i - 1] == b[i]);
                assert(b.skip(1)[j - 1] == b[j]);
            }
        }
    }
}

/// When the first record for `t` stands at index `i`, bumping is exactly an
/// update of that one record.
proof fn lemma_bump_found(s: Seq<TokenEntry>, t: Token, i: int)
    requires
        0 <= i < s.len(),
        s[i].value == t,
        forall|j: int| 0 <= j < i ==> s[j].value != t,
    ensures
        spec_bump(s, t) == s.update(i, TokenEntry { value: t, count: sat_inc(s[i].count) }),
    decreases i,
{
    if i == 0 {
        assert(spec_bump(s, t) =~= s.update(0, TokenEntry { value: t, count: sat_inc(s[0].count) }));
    } else {
        lemma_bump_found(s.skip(1), t, i - 1);
        assert(s.skip(1)[i - 1] == s[i]);
        assert(spec_bump(s, t) =~= s.update(i, TokenEntry { value: t, count: sat_inc(s[i].count) }));
    }
}

/// When no record for `t` exists, bumping is exactly an append at count 1.
proof fn lemma_bump_absent(s: Seq<TokenEntry>, t: Token)
    requires
        forall|j: int| 0 <= j < s.len() ==> s[j].value != t,
    ensures
        spec_bump(s, t) == s.push(TokenEntry { value: t, count: 1 }),
    decreases s.len(),
{
    if s.len() == 0 {
        assert(spec_bump(s, t) =~= s.push(TokenEntry { value: t, count: 1 }));
    } else {
        lemma_bump_absent(s.skip(1), t);
        assert(spec_bump(s, t) =~= s.push(TokenEntry { value: t, count: 1 }));
    }
}

} // verus!
