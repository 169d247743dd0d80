//! The lookahead engine: a `Lookahead` is either `Nil` (no lookahead is
//! tracked, the LR(0) mode) or an explicit, sorted set of lookahead tokens
//! (the LR(1) mode). Tokens are terminal indices, plus the reserved
//! end-of-input index (see `grammar::spec_eof_token`).

use vstd::prelude::*;

verus! {

/// An explicit set of lookahead tokens, kept as a strictly ascending vector
/// so that iteration and display are canonical.
#[derive(Clone, Debug)]
pub struct TokenSet {
    pub tokens: Vec<usize>,
}

/// A lookahead capability: `Nil` tracks nothing (valid under any lookahead);
/// `TokenSet` is an explicit set of tokens.
#[derive(Clone, Debug)]
pub enum Lookahead {
    Nil,
    TokenSet(TokenSet),
}

/// Strictly ascending (hence duplicate-free).
pub open spec fn tokens_sorted(s: Seq<usize>) -> bool {
    forall|i: int, j: int| 0 <= i < j < s.len() ==> s[i] < s[j]
}

/// Well-formed against a grammar with `n_tokens` lookahead tokens.
pub open spec fn tokenset_wf(ts: TokenSet, n_tokens: nat) -> bool {
    &&& tokens_sorted(ts.tokens@)
    &&& forall|i: int| 0 <= i < ts.tokens@.len() ==> (#[trigger] ts.tokens@[i]) < n_tokens
}

pub open spec fn lookahead_wf(la: Lookahead, n_tokens: nat) -> bool {
    match la {
        Lookahead::Nil => true,
        Lookahead::TokenSet(ts) => tokenset_wf(ts, n_tokens),
    }
}

/// Value equality of token sets, as the equality of their token sequences.
pub open spec fn spec_tokenset_eq(a: TokenSet, b: TokenSet) -> bool {
    a.tokens@ == b.tokens@
}

pub open spec fn spec_lookahead_eq(a: Lookahead, b: Lookahead) -> bool {
    match (a, b) {
        (Lookahead::Nil, Lookahead::Nil) => true,
        (Lookahead::TokenSet(x), Lookahead::TokenSet(y)) => spec_tokenset_eq(x, y),
        _ => false,
    }
}

/// Whether a reduction valid under lookahead `la` applies when the next
/// token is `t`: `Nil` applies under any token.
pub open spec fn spec_la_accepts(la: Lookahead, t: usize) -> bool {
    match la {
        Lookahead::Nil => true,
        Lookahead::TokenSet(ts) => ts.tokens@.contains(t),
    }
}

/// Lexicographic order on token sequences.
pub open spec fn spec_seq_usize_lt(a: Seq<usize>, b: Seq<usize>) -> bool
    decreases a.len(),
{
    if b.len() == 0 {
        false
    } else if a.len() == 0 {
        true
    } else if a[0] < b[0] {
        true
    } else if a[0] > b[0] {
        false
    } else {
        spec_seq_usize_lt(a.drop_first(), b.drop_first())
    }
}

/// A canonical strict order on lookaheads: `Nil` first, then token sets in
/// lexicographic order.
pub open spec fn spec_lookahead_lt(a: Lookahead, b: Lookahead) -> bool {
    match (a, b) {
        (Lookahead::Nil, Lookahead::Nil) => false,
        (Lookahead::Nil, Lookahead::TokenSet(_)) => true,
        (Lookahead::TokenSet(_), Lookahead::Nil) => false,
        (Lookahead::TokenSet(x), Lookahead::TokenSet(y)) => spec_seq_usize_lt(x.tokens@, y.tokens@),
    }
}

/// The lexicographic order is total: two sequences are ordered one way or
/// the other, or they are equal.
pub proof fn lemma_seq_usize_order_total(a: Seq<usize>, b: Seq<usize>)
    ensures
        spec_seq_usize_lt(a, b) || spec_seq_usize_lt(b, a) || a == b,
    decreases a.len(),
{
    if b.len() == 0 {
        if a.len() == 0 {
            assert(a =~= b);
        }
    } else if a.len() == 0 {
    } else if a[0] < b[0] || a[0] > b[0] {
    } else {
        lemma_seq_usize_order_total(a.drop_first(), b.drop_first());
        if a.drop_first() == b.drop_first() {
            assert(a.drop_first().len() == a.len() - 1);
            assert(b.drop_first().len() == b.len() - 1);
            assert(a.len() == b.len());
            assert forall|i: int| 0 <= i < a.len() implies a[i] == b[i] by {
                if i > 0 {
                    assert(a.drop_first()[i - 1] == b.drop_first()[i - 1]);
                }
            }
            assert(a =~= b);
        }
    }
}

/// Well-formedness of a lookahead depends only on its token sequence, so it
/// carries across value equality.
pub proof fn lemma_lookahead_eq_wf(a: Lookahead, b: Lookahead, n: nat)
    requires
        spec_lookahead_eq(a, b),
        lookahead_wf(b, n),
    ensures
        lookahead_wf(a, n),
{
}

/// Every member of a well-formed token set is below the bound.
pub proof fn lemma_tokenset_members_bounded(ts: TokenSet, n: nat)
    requires
        tokenset_wf(ts, n),
    ensures
        forall|x: usize| ts.tokens@.contains(x) ==> x < n,
{
    assert forall|x: usize| ts.tokens@.contains(x) implies x < n by {
        let k = choose|k: int| 0 <= k < ts.tokens@.len() && ts.tokens@[k] == x;
        assert(ts.tokens@[k] < n);
    }
}

/// A sorted set whose members are all below the bound is well formed.
pub proof fn lemma_tokenset_wf_from_members(ts: TokenSet, n: nat)
    requires
        tokens_sorted(ts.tokens@),
        forall|x: usize| ts.tokens@.contains(x) ==> x < n,
    ensures
        tokenset_wf(ts, n),
{
    assert forall|i: int| 0 <= i < ts.tokens@.len() implies (#[trigger] ts.tokens@[i]) < n by {
        assert(ts.tokens@.contains(ts.tokens@[i]));
    }
}

/// The lexicographic order is transitive.
pub proof fn lemma_seq_usize_lt_trans(a: Seq<usize>, b: Seq<usize>, c: Seq<usize>)
    requires
        spec_seq_usize_lt(a, b),
        spec_seq_usize_lt(b, c),
    ensures
        spec_seq_usize_lt(a, c),
    decreases a.len(),
{
    if c.len() == 0 {
    } else if a.len() == 0 {
    } else {
        if b.len() == 0 {
        } else {
            if a[0] < b[0] {
                if b[0] < c[0] {
                } else if b[0] > c[0] {
                } else {
                }
            } else if a[0] > b[0] {
            } else {
                if b[0] < c[0] {
                } else if b[0] > c[0] {
                } else {
                    lemma_seq_usize_lt_trans(a.drop_first(), b.drop_first(), c.drop_first());
                }
            }
        }
    }
}

pub proof fn lemma_lookahead_lt_trans(a: Lookahead, b: Lookahead, c: Lookahead)
    requires
        spec_lookahead_lt(a, b),
        spec_lookahead_lt(b, c),
    ensures
        spec_lookahead_lt(a, c),
{
    match (a, b, c) {
        (Lookahead::TokenSet(x), Lookahead::TokenSet(y), Lookahead::TokenSet(z)) => {
            lemma_seq_usize_lt_trans(x.tokens@, y.tokens@, z.tokens@);
        },
        _ => {},
    }
}

pub proof fn lemma_lookahead_order_total(a: Lookahead, b: Lookahead)
    ensures
        spec_lookahead_lt(a, b) || spec_lookahead_lt(b, a) || spec_lookahead_eq(a, b),
{
    match (a, b) {
        (Lookahead::TokenSet(x), Lookahead::TokenSet(y)) => {
            lemma_seq_usize_order_total(x.tokens@, y.tokens@);
        },
        _ => {},
    }
}

impl TokenSet {
    /// The empty token set.
    pub fn new() -> (r: TokenSet)
        ensures
            r.tokens@ == Seq::<usize>::empty(),
    {
        TokenSet { tokens: Vec::new() }
    }

    pub fn len(&self) -> (r: usize)
        ensures
            r == self.tokens@.len(),
    {
        self.tokens.len()
    }

    pub fn is_empty(&self) -> (r: bool)
        ensures
            r == (self.tokens@.len() == 0),
    {
        self.tokens.len() == 0
    }

    /// Membership test.
    pub fn contains(&self, t: usize) -> (r: bool)
        ensures
            r == self.tokens@.contains(t),
    {
        let mut i: usize = 0;
        while i < self.tokens.len()
            invariant
                0 <= i <= self.tokens@.len(),
                forall|k: int| 0 <= k < i ==> self.tokens@[k] != t,
            decreases self.tokens@.len() - i,
        {
            if self.tokens[i] == t {
                return true;
            }
            i = i + 1;
        }
        false
    }

    /// Inserts `t`, keeping the vector strictly ascending. A token already
    /// present leaves the set unchanged.
    pub fn insert(&mut self, t: usize)
        requires
            tokens_sorted(old(self).tokens@),
        ensures
            tokens_sorted(final(self).tokens@),
            forall|x: usize|
                final(self).tokens@.contains(x) <==> old(self).tokens@.contains(x) || x == t,
            old(self).tokens@.len() <= final(self).tokens@.len()
                <= old(self).tokens@.len() + 1,
            old(self).tokens@.contains(t) ==> final(self).tokens@ == old(self).tokens@,
            !old(self).tokens@.contains(t) ==> final(self).tokens@.len() == old(self).tokens@.len()
                + 1,
    {
        let ghost orig = self.tokens@;
        let mut pos: usize = 0;
        while pos < self.tokens.len() && self.tokens[pos] < t
            invariant
                self.tokens@ == orig,
                0 <= pos <= orig.len(),
                forall|k: int| 0 <= k < pos ==> orig[k] < t,
            decreases self.tokens@.len() - pos,
        {
            pos = pos + 1;
        }
        if pos < self.tokens.len() && self.tokens[pos] == t {
            proof {
                assert(orig.contains(t));
            }
            return;
        }
        proof {
            assert(forall|k: int| pos <= k < orig.len() ==> orig[k] > t) by {
                assert(forall|k: int| pos <= k < orig.len() ==> orig[k] >= orig[pos as int]);
            }
            assert(!orig.contains(t)) by {
                if orig.contains(t) {
                    let k = choose|k: int| 0 <= k < orig.len() && orig[k] == t;
                    assert(false);
                }
            }
        }
        self.tokens.insert(pos, t);
        proof {
            let s = self.tokens@;
            assert(forall|x: usize| s.contains(x) <==> orig.contains(x) || x == t) by {
                assert(forall|k: int| 0 <= k < pos ==> s[k] == orig[k]);
                assert(s[pos as int] == t);
                assert(forall|k: int| pos < k < s.len() ==> s[k] == orig[k - 1]);
                assert(forall|x: usize| orig.contains(x) ==> s.contains(x)) by {
                    assert(forall|k: int|
                        0 <= k < orig.len() ==> s[if k < pos {
                            k
                        } else {
                            k + 1
                        }] == orig[k]);
                }
            }
        }
    }

    /// The set of tokens in `self` or in `other`.
    pub fn union(&self, other: &TokenSet) -> (r: TokenSet)
        requires
            tokens_sorted(self.tokens@),
            tokens_sorted(other.tokens@),
        ensures
            tokens_sorted(r.tokens@),
            forall|x: usize|
                r.tokens@.contains(x) <==> self.tokens@.contains(x) || other.tokens@.contains(x),
            self.tokens@.len() <= r.tokens@.len(),
            r.tokens@.len() == self.tokens@.len() ==> r.tokens@ == self.tokens@,
    {
        let mut tokens: Vec<usize> = Vec::new();
        let mut i: usize = 0;
        while i < self.tokens.len()
            invariant
                0 <= i <= self.tokens@.len(),
                tokens@ == self.tokens@.subrange(0, i as int),
            decreases self.tokens@.len() - i,
        {
            tokens.push(self.tokens[i]);
            proof {
                assert(tokens@ =~= self.tokens@.subrange(0, i + 1));
            }
            i = i + 1;
        }
        proof {
            assert(tokens@ =~= self.tokens@);
        }
        let mut r = TokenSet { tokens };
        let mut j: usize = 0;
        while j < other.tokens.len()
            invariant
                0 <= j <= other.tokens@.len(),
                tokens_sorted(self.tokens@),
                tokens_sorted(other.tokens@),
                tokens_sorted(r.tokens@),
                self.tokens@.len() <= r.tokens@.len(),
                r.tokens@.len() == self.tokens@.len() ==> r.tokens@ == self.tokens@,
                forall|x: usize|
                    r.tokens@.contains(x) <==> self.tokens@.contains(x) || other.tokens@.subrange(
                        0,
                        j as int,
                    ).contains(x),
            decreases other.tokens@.len() - j,
        {
            r.insert(other.tokens[j]);
            proof {
                assert(forall|x: usize|
                    other.tokens@.subrange(0, j + 1).contains(x) <==> other.tokens@.subrange(
                        0,
                        j as int,
                    ).contains(x) || x == other.tokens@[j as int]) by {
                    let s1 = other.tokens@.subrange(0, j + 1);
                    let s0 = other.tokens@.subrange(0, j as int);
                    assert(forall|k: int| 0 <= k < s0.len() ==> s1[k] == s0[k]);
                    assert(s1[j as int] == other.tokens@[j as int]);
                }
            }
            j = j + 1;
        }
        proof {
            assert(other.tokens@.subrange(0, other.tokens@.len() as int) =~= other.tokens@);
        }
        r
    }

    /// The set of tokens in both `self` and `other`.
    pub fn intersection(&self, other: &TokenSet) -> (r: TokenSet)
        requires
            tokens_sorted(self.tokens@),
        ensures
            tokens_sorted(r.tokens@),
            forall|x: usize|
                r.tokens@.contains(x) <==> self.tokens@.contains(x) && other.tokens@.contains(x),
    {
        let mut r = TokenSet { tokens: Vec::new() };
        let mut i: usize = 0;
        while i < self.tokens.len()
            invariant
                0 <= i <= self.tokens@.len(),
                tokens_sorted(self.tokens@),
                tokens_sorted(r.tokens@),
                forall|x: usize|
                    r.tokens@.contains(x) <==> self.tokens@.subrange(0, i as int).contains(x)
                        && other.tokens@.contains(x),
            decreases self.tokens@.len() - i,
        {
            if other.contains(self.tokens[i]) {
                let ghost before = r.tokens@;
                r.insert(self.tokens[i]);
            }
            proof {
                assert(forall|x: usize|
                    self.tokens@.subrange(0, i + 1).contains(x) <==> self.tokens@.subrange(
                        0,
                        i as int,
                    ).contains(x) || x == self.tokens@[i as int]) by {
                    let s1 = self.tokens@.subrange(0, i + 1);
                    let s0 = self.tokens@.subrange(0, i as int);
                    assert(forall|k: int| 0 <= k < s0.len() ==> s1[k] == s0[k]);
                    assert(s1[i as int] == self.tokens@[i as int]);
                }
            }
            i = i + 1;
        }
        proof {
            assert(self.tokens@.subrange(0, self.tokens@.len() as int) =~= self.tokens@);
        }
        r
    }

    /// Value equality with `other`.
    pub fn set_eq(&self, other: &TokenSet) -> (r: bool)
        ensures
            r == spec_tokenset_eq(*self, *other),
    {
        if self.tokens.len() != other.tokens.len() {
            proof {
                assert(self.tokens@ != other.tokens@);
            }
            return false;
        }
        let mut i: usize = 0;
        while i < self.tokens.len()
            invariant
                0 <= i <= self.tokens@.len(),
                self.tokens@.len() == other.tokens@.len(),
                forall|k: int| 0 <= k < i ==> self.tokens@[k] == other.tokens@[k],
            decreases self.tokens@.len() - i,
        {
            if self.tokens[i] != other.tokens[i] {
                proof {
                    assert(self.tokens@ != other.tokens@);
                }
                return false;
            }
            i = i + 1;
        }
        proof {
            assert(self.tokens@ =~= other.tokens@);
        }
        true
    }

    /// Lexicographic comparison with `other`.
    pub fn set_lt(&self, other: &TokenSet) -> (r: bool)
        ensures
            r == spec_seq_usize_lt(self.tokens@, other.tokens@),
    {
        let a = &self.tokens;
        let b = &other.tokens;
        proof {
            assert(a@.skip(0) =~= a@);
            assert(b@.skip(0) =~= b@);
        }
        let mut i: usize = 0;
        while i < a.len() && i < b.len()
            invariant
                a@ == self.tokens@,
                b@ == other.tokens@,
                0 <= i <= a@.len(),
                0 <= i <= b@.len(),
                forall|k: int| 0 <= k < i ==> a@[k] == b@[k],
                spec_seq_usize_lt(a@, b@) == spec_seq_usize_lt(
                    a@.skip(i as int),
                    b@.skip(i as int),
                ),
            decreases a@.len() - i,
        {
            if a[i] < b[i] {
                proof {
                    assert(a@.skip(i as int)[0] == a@[i as int]);
                    assert(b@.skip(i as int)[0] == b@[i as int]);
                    assert(spec_seq_usize_lt(a@.skip(i as int), b@.skip(i as int)));
                }
                return true;
            }
            if a[i] > b[i] {
                proof {
                    assert(a@.skip(i as int)[0] == a@[i as int]);
                    assert(b@.skip(i as int)[0] == b@[i as int]);
                    assert(!spec_seq_usize_lt(a@.skip(i as int), b@.skip(i as int)));
                }
                return false;
            }
            proof {
                assert(a@.skip(i as int).drop_first() =~= a@.skip(i + 1));
                assert(b@.skip(i as int).drop_first() =~= b@.skip(i + 1));
                assert(a@.skip(i as int)[0] == a@[i as int]);
                assert(b@.skip(i as int)[0] == b@[i as int]);
            }
            i = i + 1;
        }
        proof {
            assert(a@.skip(i as int).len() == a@.len() - i);
            assert(b@.skip(i as int).len() == b@.len() - i);
            assert(spec_seq_usize_lt(a@.skip(i as int), b@.skip(i as int)) == (a@.len()
                < b@.len()));
        }
        a.len() < b.len()
    }
}

impl Lookahead {
    /// Whether printing this lookahead produces any text: `Nil` prints
    /// nothing, a token set prints its tokens when it has any.
    pub fn has_anything_to_print(&self) -> (r: bool)
        ensures
            r == spec_la_has_print(*self),
    {
        match self {
            Lookahead::Nil => false,
            Lookahead::TokenSet(ts) => ts.len() > 0,
        }
    }

    /// Whether a reduction valid under `self` applies when the next token
    /// is `t`.
    pub fn accepts(&self, t: usize) -> (r: bool)
        ensures
            r == spec_la_accepts(*self, t),
    {
        match self {
            Lookahead::Nil => true,
            Lookahead::TokenSet(ts) => ts.contains(t),
        }
    }

    /// The merge (union) of two lookaheads: merging with `Nil` tracks
    /// nothing, and two token sets merge to their union.
    pub fn merge(&self, other: &Lookahead) -> (r: Lookahead)
        requires
            self matches Lookahead::TokenSet(x) ==> tokens_sorted(x.tokens@),
            other matches Lookahead::TokenSet(y) ==> tokens_sorted(y.tokens@),
        ensures
            r matches Lookahead::Nil <==> (self matches Lookahead::Nil || other
                matches Lookahead::Nil),
            self matches Lookahead::TokenSet(x) ==> (other matches Lookahead::TokenSet(y) ==> (r
                matches Lookahead::TokenSet(z) ==> (tokens_sorted(z.tokens@) && forall|t: usize|
                z.tokens@.contains(t) <==> x.tokens@.contains(t) || y.tokens@.contains(t)))),
    {
        match (self, other) {
            (Lookahead::TokenSet(x), Lookahead::TokenSet(y)) => Lookahead::TokenSet(x.union(y)),
            _ => Lookahead::Nil,
        }
    }

    /// Value equality with `other`.
    pub fn la_eq(&self, other: &Lookahead) -> (r: bool)
        ensures
            r == spec_lookahead_eq(*self, *other),
    {
        match (self, other) {
            (Lookahead::Nil, Lookahead::Nil) => true,
            (Lookahead::TokenSet(x), Lookahead::TokenSet(y)) => x.set_eq(y),
            _ => false,
        }
    }

    /// Canonical-order comparison with `other`.
    pub fn la_lt(&self, other: &Lookahead) -> (r: bool)
        ensures
            r == spec_lookahead_lt(*self, *other),
    {
        match (self, other) {
            (Lookahead::Nil, Lookahead::Nil) => false,
            (Lookahead::Nil, Lookahead::TokenSet(_)) => true,
            (Lookahead::TokenSet(_), Lookahead::Nil) => false,
            (Lookahead::TokenSet(x), Lookahead::TokenSet(y)) => x.set_lt(y),
        }
    }
}

/// Whether printing `la` produces any text.
pub open spec fn spec_la_has_print(la: Lookahead) -> bool {
    match la {
        Lookahead::Nil => false,
        Lookahead::TokenSet(ts) => ts.tokens@.len() > 0,
    }
}

} // verus!
