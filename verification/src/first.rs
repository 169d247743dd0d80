//! FIRST sets: for every nonterminal, the set of terminals that can begin
//! one of its derivations, and whether it can derive the empty sequence.
//! They are computed as the least fixed point of one monotone pass over all
//! productions; the loop terminates because each changing pass strictly
//! increases the total size of the sets, which the grammar bounds.

use vstd::prelude::*;

verus! {

use crate::grammar::Grammar;
use crate::grammar::Symbol;
use crate::grammar::grammar_wf;
use crate::grammar::production_wf;
use crate::grammar::spec_n_tokens;
use crate::lookahead::TokenSet;
use crate::lookahead::tokens_sorted;
use crate::lookahead::tokenset_wf;

/// The FIRST set and nullability flag of every nonterminal, by index.
pub struct FirstSets {
    pub first: Vec<TokenSet>,
    pub nullable: Vec<bool>,
}

pub open spec fn first_sets_wf(g: Grammar, fs: FirstSets) -> bool {
    &&& fs.first@.len() == g.nonterminals@.len()
    &&& fs.nullable@.len() == g.nonterminals@.len()
    &&& forall|i: int|
        0 <= i < fs.first@.len() ==> tokenset_wf(#[trigger] fs.first@[i], spec_n_tokens(g))
}

/// Positions `0..j` of production `p`'s right-hand side are all nonterminals
/// that the given flags mark nullable.
pub open spec fn prefix_nullable(g: Grammar, nullable: Seq<bool>, p: int, j: int) -> bool {
    forall|jj: int|
        0 <= jj < j ==> match #[trigger] g.productions@[p].symbols@[jj] {
            Symbol::Nonterminal(m) => nullable[m as int],
            Symbol::Terminal(_) => false,
        }
}

/// Every token of `a` is a token of `b`.
pub open spec fn token_subset(a: TokenSet, b: TokenSet) -> bool {
    forall|t: usize| a.tokens@.contains(t) ==> b.tokens@.contains(t)
}

/// One derivation step of the FIRST computation, read off `from` and
/// recorded in `to`: for every production `A -> s1..sk` and every position
/// whose prefix consists of `from`-nullable nonterminals, a terminal at that
/// position is in `to`'s FIRST(A); a nonterminal `M` there has all of
/// `from`'s FIRST(M) inside `to`'s FIRST(A); and when the whole right-hand
/// side is such a prefix, `A` is nullable in `to`.
#[verifier::opaque]
pub open spec fn first_step_closed(g: Grammar, from: FirstSets, to: FirstSets) -> bool {
    &&& forall|p: int, j: int|
        #![trigger g.productions@[p].symbols@[j]]
        0 <= p < g.productions@.len() && 0 <= j < g.productions@[p].symbols@.len()
            && prefix_nullable(g, from.nullable@, p, j) ==> match g.productions@[p].symbols@[j] {
            Symbol::Terminal(t) => to.first@[g.productions@[p].nonterminal as int].tokens@.contains(
                t,
            ),
            Symbol::Nonterminal(m) => token_subset(
                from.first@[m as int],
                to.first@[g.productions@[p].nonterminal as int],
            ),
        }
    &&& forall|p: int|
        0 <= p < g.productions@.len() && prefix_nullable(
            g,
            from.nullable@,
            p,
            g.productions@[p].symbols@.len() as int,
        ) ==> to.nullable@[(#[trigger] g.productions@[p]).nonterminal as int]
}

/// The FIRST sets are closed under the derivation step: every production
/// read through its nullable prefix contributes nothing new.
pub open spec fn first_closed(g: Grammar, fs: FirstSets) -> bool {
    first_step_closed(g, fs, fs)
}

/// The total size of the sets plus the number of set nullability flags: the
/// measure that every changing pass strictly increases.
pub open spec fn sets_weight(first: Seq<TokenSet>, nullable: Seq<bool>) -> nat
    decreases first.len(),
{
    if first.len() == 0 {
        0
    } else {
        sets_weight(first.drop_last(), nullable.drop_last()) + first.last().tokens@.len() + (
        if nullable.len() > 0 && nullable.last() {
            1nat
        } else {
            0nat
        })
    }
}

/// A strictly ascending sequence of values below `n` has at most `n`
/// elements.
pub proof fn lemma_sorted_bounded_len(s: Seq<usize>, n: nat)
    requires
        tokens_sorted(s),
        forall|i: int| 0 <= i < s.len() ==> (#[trigger] s[i]) < n,
    ensures
        s.len() <= n,
    decreases s.len(),
{
    if s.len() > 0 {
        let t = s.drop_last();
        assert(forall|i: int| 0 <= i < t.len() ==> t[i] == s[i]);
        assert(forall|i: int| 0 <= i < t.len() ==> (#[trigger] t[i]) < s.last());
        lemma_sorted_bounded_len(t, s.last() as nat);
    }
}

/// The weight of well-formed sets is bounded by the grammar: each set holds
/// at most `n_tokens` tokens and each flag counts at most one.
proof fn lemma_weight_bound(first: Seq<TokenSet>, nullable: Seq<bool>, n_tokens: nat)
    requires
        first.len() == nullable.len(),
        forall|i: int| 0 <= i < first.len() ==> tokenset_wf(#[trigger] first[i], n_tokens),
    ensures
        sets_weight(first, nullable) <= first.len() * (n_tokens + 1),
    decreases first.len(),
{
    if first.len() > 0 {
        let f = first.drop_last();
        let n = nullable.drop_last();
        assert(forall|i: int| 0 <= i < f.len() ==> f[i] == first[i]);
        lemma_weight_bound(f, n, n_tokens);
        assert(tokenset_wf(first.last(), n_tokens));
        lemma_sorted_bounded_len(first.last().tokens@, n_tokens);
        assert(first.last().tokens@.len() + 1 <= n_tokens + 1);
        assert(f.len() * (n_tokens + 1) + (n_tokens + 1) == first.len() * (n_tokens + 1))
            by (nonlinear_arith)
            requires
                f.len() == first.len() - 1,
        ;
    }
}

/// Pointwise-larger sets have at least the same weight, and strictly more
/// of it when some set or flag grew.
proof fn lemma_weight_monotone(
    fa: Seq<TokenSet>,
    na: Seq<bool>,
    fb: Seq<TokenSet>,
    nb: Seq<bool>,
)
    requires
        fa.len() == fb.len(),
        na.len() == fa.len(),
        nb.len() == fb.len(),
        forall|i: int| 0 <= i < fa.len() ==> (#[trigger] fa[i]).tokens@.len() <= fb[i].tokens@.len(),
        forall|i: int| 0 <= i < na.len() ==> ((#[trigger] na[i]) ==> nb[i]),
    ensures
        sets_weight(fa, na) <= sets_weight(fb, nb),
        forall|k: int|
            0 <= k < fa.len() && ((#[trigger] fa[k]).tokens@.len() < fb[k].tokens@.len() || na[k]
                != nb[k]) ==> sets_weight(fa, na) < sets_weight(fb, nb),
    decreases fa.len(),
{
    if fa.len() > 0 {
        let fa1 = fa.drop_last();
        let na1 = na.drop_last();
        let fb1 = fb.drop_last();
        let nb1 = nb.drop_last();
        assert(forall|i: int| 0 <= i < fa1.len() ==> fa1[i] == fa[i] && fb1[i] == fb[i]);
        assert(forall|i: int| 0 <= i < na1.len() ==> na1[i] == na[i] && nb1[i] == nb[i]);
        lemma_weight_monotone(fa1, na1, fb1, nb1);
        assert(fa.last() == fa[fa.len() - 1]);
        assert(forall|k: int|
            0 <= k < fa.len() - 1 ==> (((#[trigger] fa[k]).tokens@.len() < fb[k].tokens@.len()
                || na[k] != nb[k]) ==> (fa1[k].tokens@.len() < fb1[k].tokens@.len() || na1[k]
                != nb1[k])));
    }
}

/// One monotone pass: for every production `A -> s1 .. sk`, adds to
/// `FIRST(A)` the first terminal of every prefix of the right-hand side
/// whose earlier symbols are all nullable nonterminals, merges the FIRST
/// sets of those nonterminals, and marks `A` nullable when the whole
/// right-hand side is nullable. Reports whether anything grew.
#[verifier::loop_isolation(false)]
#[verifier::rlimit(100)]
fn first_round(g: &Grammar, fs: &FirstSets) -> (r: (FirstSets, bool))
    requires
        grammar_wf(*g),
        first_sets_wf(*g, *fs),
    ensures
        first_sets_wf(*g, r.0),
        forall|i: int|
            0 <= i < fs.first@.len() ==> (#[trigger] fs.first@[i]).tokens@.len()
                <= r.0.first@[i].tokens@.len(),
        forall|i: int| 0 <= i < fs.nullable@.len() ==> ((#[trigger] fs.nullable@[i]) ==> r.0.nullable@[i]),
        forall|i: int|
            0 <= i < fs.first@.len() && (#[trigger] r.0.first@[i]).tokens@.len()
                == fs.first@[i].tokens@.len() ==> r.0.first@[i].tokens@ == fs.first@[i].tokens@,
        first_step_closed(*g, *fs, r.0),
        r.1 == exists|i: int|
            0 <= i < fs.first@.len() && ((#[trigger] fs.first@[i]).tokens@.len()
                < r.0.first@[i].tokens@.len() || fs.nullable@[i] != r.0.nullable@[i]),
    {
    let n_nts = g.nonterminals.len();
    let mut new_first: Vec<TokenSet> = Vec::new();
    let mut new_nullable: Vec<bool> = Vec::new();
    let mut i: usize = 0;
    while i < n_nts
        invariant
            0 <= i <= n_nts,
            new_first@.len() == i,
            new_nullable@.len() == i,
            forall|k: int| 0 <= k < i ==> tokenset_wf(#[trigger] new_first@[k], spec_n_tokens(*g)),
            forall|k: int|
                0 <= k < i ==> (#[trigger] fs.first@[k]).tokens@.len()
                    <= new_first@[k].tokens@.len(),
            forall|k: int| 0 <= k < i ==> ((#[trigger] fs.nullable@[k]) ==> new_nullable@[k]),
            forall|k: int|
                0 <= k < i && (#[trigger] new_first@[k]).tokens@.len()
                    == fs.first@[k].tokens@.len() ==> new_first@[k].tokens@ == fs.first@[k].tokens@,
            forall|p: int, j: int|
                #![trigger g.productions@[p].symbols@[j]]
                0 <= p < g.productions@.len() && g.productions@[p].nonterminal < i && 0 <= j
                    < g.productions@[p].symbols@.len() && prefix_nullable(*g, fs.nullable@, p, j)
                    ==> match g.productions@[p].symbols@[j] {
                    Symbol::Terminal(t) => new_first@[g.productions@[p].nonterminal as int].tokens@.contains(t),
                    Symbol::Nonterminal(m) => token_subset(
                        fs.first@[m as int],
                        new_first@[g.productions@[p].nonterminal as int],
                    ),
                },
            forall|p: int|
                0 <= p < g.productions@.len() && (#[trigger] g.productions@[p]).nonterminal < i
                    && prefix_nullable(
                    *g,
                    fs.nullable@,
                    p,
                    g.productions@[p].symbols@.len() as int,
                ) ==> new_nullable@[g.productions@[p].nonterminal as int],
        decreases n_nts - i,
    {
        let mut grew = fs.first[i].duplicate_set();
        let mut is_nullable = fs.nullable[i];
        let mut p: usize = 0;
        while p < g.productions.len()
            invariant
                0 <= p <= g.productions@.len(),
                i < n_nts,
                tokenset_wf(grew, spec_n_tokens(*g)),
                fs.first@[i as int].tokens@.len() <= grew.tokens@.len(),
                grew.tokens@.len() == fs.first@[i as int].tokens@.len() ==> grew.tokens@
                    == fs.first@[i as int].tokens@,
                fs.nullable@[i as int] ==> is_nullable,
                forall|p2: int, j: int|
                    #![trigger g.productions@[p2].symbols@[j]]
                    0 <= p2 < p && g.productions@[p2].nonterminal == i && 0 <= j
                        < g.productions@[p2].symbols@.len() && prefix_nullable(
                        *g,
                        fs.nullable@,
                        p2,
                        j,
                    ) ==> match g.productions@[p2].symbols@[j] {
                        Symbol::Terminal(t) => grew.tokens@.contains(t),
                        Symbol::Nonterminal(m) => token_subset(fs.first@[m as int], grew),
                    },
                forall|p2: int|
                    0 <= p2 < p && (#[trigger] g.productions@[p2]).nonterminal == i
                        && prefix_nullable(
                        *g,
                        fs.nullable@,
                        p2,
                        g.productions@[p2].symbols@.len() as int,
                    ) ==> is_nullable,
            decreases g.productions@.len() - p,
        {
            if g.productions[p].nonterminal == i {
                proof {
                    assert(production_wf(
                        g.productions@[p as int],
                        g.terminals@.len(),
                        g.nonterminals@.len(),
                    ));
                }
                let n_syms = g.productions[p].symbols.len();
                let mut j: usize = 0;
                let mut blocked = false;
                let ghost mut j_stop: int = 0;
                while j < n_syms
                    invariant
                        0 <= j <= n_syms,
                        i < n_nts,
                        p < g.productions@.len(),
                        g.productions@[p as int].nonterminal == i,
                        n_syms == g.productions@[p as int].symbols@.len(),
                        tokenset_wf(grew, spec_n_tokens(*g)),
                        fs.first@[i as int].tokens@.len() <= grew.tokens@.len(),
                        grew.tokens@.len() == fs.first@[i as int].tokens@.len() ==> grew.tokens@
                            == fs.first@[i as int].tokens@,
                        forall|p2: int, j2: int|
                            #![trigger g.productions@[p2].symbols@[j2]]
                            0 <= p2 < p && g.productions@[p2].nonterminal == i && 0 <= j2
                                < g.productions@[p2].symbols@.len() && prefix_nullable(
                                *g,
                                fs.nullable@,
                                p2,
                                j2,
                            ) ==> match g.productions@[p2].symbols@[j2] {
                                Symbol::Terminal(t) => grew.tokens@.contains(t),
                                Symbol::Nonterminal(m) => token_subset(fs.first@[m as int], grew),
                            },
                        !blocked ==> forall|jj: int|
                            #![trigger g.productions@[p as int].symbols@[jj]]
                            0 <= jj < j ==> match g.productions@[p as int].symbols@[jj] {
                                Symbol::Nonterminal(m) => fs.nullable@[m as int] && token_subset(
                                    fs.first@[m as int],
                                    grew,
                                ),
                                Symbol::Terminal(_) => false,
                            },
                        blocked ==> j == n_syms && 0 <= j_stop < n_syms,
                        blocked ==> forall|jj: int|
                            #![trigger g.productions@[p as int].symbols@[jj]]
                            0 <= jj < j_stop ==> match g.productions@[p as int].symbols@[jj] {
                                Symbol::Nonterminal(m) => fs.nullable@[m as int] && token_subset(
                                    fs.first@[m as int],
                                    grew,
                                ),
                                Symbol::Terminal(_) => false,
                            },
                        blocked ==> match g.productions@[p as int].symbols@[j_stop] {
                            Symbol::Terminal(t) => grew.tokens@.contains(t),
                            Symbol::Nonterminal(m) => !fs.nullable@[m as int] && token_subset(
                                fs.first@[m as int],
                                grew,
                            ),
                        },
                    decreases n_syms - j,
                {
                    match g.productions[p].symbols[j] {
                        Symbol::Terminal(t) => {
                            let ghost gb = grew;
                            grew.insert(t);
                            proof {
                                crate::lookahead::lemma_tokenset_members_bounded(
                                    gb,
                                    spec_n_tokens(*g),
                                );
                                crate::lookahead::lemma_tokenset_wf_from_members(
                                    grew,
                                    spec_n_tokens(*g),
                                );
                                assert forall|x: usize| gb.tokens@.contains(x) implies grew.tokens@.contains(
                                    x,
                                ) by {}
                                assert forall|p2: int, j2: int|
                                    #![trigger g.productions@[p2].symbols@[j2]]
                                    0 <= p2 < p && g.productions@[p2].nonterminal == i && 0 <= j2
                                        < g.productions@[p2].symbols@.len() && prefix_nullable(
                                        *g,
                                        fs.nullable@,
                                        p2,
                                        j2,
                                    ) implies match g.productions@[p2].symbols@[j2] {
                                        Symbol::Terminal(t2) => grew.tokens@.contains(t2),
                                        Symbol::Nonterminal(m) => token_subset(
                                            fs.first@[m as int],
                                            grew,
                                        ),
                                    } by {
                                    match g.productions@[p2].symbols@[j2] {
                                        Symbol::Terminal(t2) => {
                                            assert(gb.tokens@.contains(t2));
                                        },
                                        Symbol::Nonterminal(m) => {
                                            assert(token_subset(fs.first@[m as int], gb));
                                            assert forall|x: usize| fs.first@[m as int].tokens@.contains(
                                                x,
                                            ) implies grew.tokens@.contains(x) by {
                                                assert(gb.tokens@.contains(x));
                                            }
                                        },
                                    }
                                }
                                assert forall|jj: int|
                                    #![trigger g.productions@[p as int].symbols@[jj]]
                                    0 <= jj < j implies match g.productions@[p as int].symbols@[jj] {
                                        Symbol::Nonterminal(m) => fs.nullable@[m as int]
                                            && token_subset(fs.first@[m as int], grew),
                                        Symbol::Terminal(_) => false,
                                    } by {
                                    match g.productions@[p as int].symbols@[jj] {
                                        Symbol::Nonterminal(m) => {
                                            assert(token_subset(fs.first@[m as int], gb));
                                            assert forall|x: usize| fs.first@[m as int].tokens@.contains(
                                                x,
                                            ) implies grew.tokens@.contains(x) by {
                                                assert(gb.tokens@.contains(x));
                                            }
                                        },
                                        Symbol::Terminal(_) => {},
                                    }
                                }
                                j_stop = j as int;
                                assert(grew.tokens@.contains(t));
                            }
                            blocked = true;
                            j = n_syms;
                        },
                        Symbol::Nonterminal(m) => {
                            proof {
                                assert(tokenset_wf(fs.first@[m as int], spec_n_tokens(*g)));
                            }
                            let merged = grew.union(&fs.first[m]);
                            proof {
                                crate::lookahead::lemma_tokenset_members_bounded(
                                    grew,
                                    spec_n_tokens(*g),
                                );
                                crate::lookahead::lemma_tokenset_members_bounded(
                                    fs.first@[m as int],
                                    spec_n_tokens(*g),
                                );
                                crate::lookahead::lemma_tokenset_wf_from_members(
                                    merged,
                                    spec_n_tokens(*g),
                                );
                            }
                            let ghost gb = grew;
                            grew = merged;
                            proof {
                                assert forall|x: usize| gb.tokens@.contains(x) implies grew.tokens@.contains(
                                    x,
                                ) by {}
                                assert(token_subset(fs.first@[m as int], grew));
                                assert forall|p2: int, j2: int|
                                    #![trigger g.productions@[p2].symbols@[j2]]
                                    0 <= p2 < p && g.productions@[p2].nonterminal == i && 0 <= j2
                                        < g.productions@[p2].symbols@.len() && prefix_nullable(
                                        *g,
                                        fs.nullable@,
                                        p2,
                                        j2,
                                    ) implies match g.productions@[p2].symbols@[j2] {
                                        Symbol::Terminal(t2) => grew.tokens@.contains(t2),
                                        Symbol::Nonterminal(m2) => token_subset(
                                            fs.first@[m2 as int],
                                            grew,
                                        ),
                                    } by {
                                    match g.productions@[p2].symbols@[j2] {
                                        Symbol::Terminal(t2) => {
                                            assert(gb.tokens@.contains(t2));
                                        },
                                        Symbol::Nonterminal(m2) => {
                                            assert(token_subset(fs.first@[m2 as int], gb));
                                            assert forall|x: usize| fs.first@[m2 as int].tokens@.contains(
                                                x,
                                            ) implies grew.tokens@.contains(x) by {
                                                assert(gb.tokens@.contains(x));
                                            }
                                        },
                                    }
                                }
                                assert forall|jj: int|
                                    #![trigger g.productions@[p as int].symbols@[jj]]
                                    0 <= jj < j implies match g.productions@[p as int].symbols@[jj] {
                                        Symbol::Nonterminal(m2) => fs.nullable@[m2 as int]
                                            && token_subset(fs.first@[m2 as int], grew),
                                        Symbol::Terminal(_) => false,
                                    } by {
                                    match g.productions@[p as int].symbols@[jj] {
                                        Symbol::Nonterminal(m2) => {
                                            assert(token_subset(fs.first@[m2 as int], gb));
                                            assert forall|x: usize| fs.first@[m2 as int].tokens@.contains(
                                                x,
                                            ) implies grew.tokens@.contains(x) by {
                                                assert(gb.tokens@.contains(x));
                                            }
                                        },
                                        Symbol::Terminal(_) => {},
                                    }
                                }
                            }
                            if !fs.nullable[m] {
                                proof {
                                    j_stop = j as int;
                                }
                                blocked = true;
                                j = n_syms;
                            } else {
                                j = j + 1;
                            }
                        },
                    }
                }
                // The walk either passed every position (all nullable
                // nonterminals) or stopped at `j_stop`; either way the step
                // conclusions now hold for this production.
                proof {
                    assert forall|j2: int|
                        #![trigger g.productions@[p as int].symbols@[j2]]
                        0 <= j2 < n_syms && prefix_nullable(*g, fs.nullable@, p as int, j2)
                        implies match g.productions@[p as int].symbols@[j2] {
                            Symbol::Terminal(t) => grew.tokens@.contains(t),
                            Symbol::Nonterminal(m) => token_subset(fs.first@[m as int], grew),
                        } by {
                        if blocked {
                            if j2 > j_stop {
                                assert(match g.productions@[p as int].symbols@[j_stop] {
                                    Symbol::Nonterminal(m) => fs.nullable@[m as int],
                                    Symbol::Terminal(_) => false,
                                });
                                assert(false);
                            }
                        }
                    }
                }
                if !blocked {
                    is_nullable = true;
                }
                proof {
                    if blocked && prefix_nullable(
                        *g,
                        fs.nullable@,
                        p as int,
                        n_syms as int,
                    ) {
                        assert(match g.productions@[p as int].symbols@[j_stop] {
                            Symbol::Nonterminal(m) => fs.nullable@[m as int],
                            Symbol::Terminal(_) => false,
                        });
                        assert(false);
                    }
                }
            }
            p = p + 1;
        }
        new_first.push(grew);
        new_nullable.push(is_nullable);
        proof {
            assert forall|p2: int, j: int|
                #![trigger g.productions@[p2].symbols@[j]]
                0 <= p2 < g.productions@.len() && g.productions@[p2].nonterminal < i + 1 && 0 <= j
                    < g.productions@[p2].symbols@.len() && prefix_nullable(
                    *g,
                    fs.nullable@,
                    p2,
                    j,
                ) implies match g.productions@[p2].symbols@[j] {
                    Symbol::Terminal(t) => new_first@[g.productions@[p2].nonterminal as int].tokens@.contains(t),
                    Symbol::Nonterminal(m) => token_subset(
                        fs.first@[m as int],
                        new_first@[g.productions@[p2].nonterminal as int],
                    ),
                } by {
                let a = g.productions@[p2].nonterminal as int;
                if a < i {
                    assert(new_first@[a] == new_first@.drop_last()[a]);
                } else {
                    assert(new_first@[a] == grew);
                }
            }
        }
        i = i + 1;
    }
    let changed = detect_growth(fs, &new_first, &new_nullable);
    let result = FirstSets { first: new_first, nullable: new_nullable };
    proof {
        reveal(first_step_closed);
        assert forall|p: int, j: int|
            #![trigger g.productions@[p].symbols@[j]]
            0 <= p < g.productions@.len() && 0 <= j < g.productions@[p].symbols@.len()
                && prefix_nullable(*g, fs.nullable@, p, j) implies match g.productions@[p].symbols@[j] {
                Symbol::Terminal(t) => result.first@[g.productions@[p].nonterminal as int].tokens@.contains(t),
                Symbol::Nonterminal(m) => token_subset(
                    fs.first@[m as int],
                    result.first@[g.productions@[p].nonterminal as int],
                ),
            } by {
            assert(production_wf(g.productions@[p], g.terminals@.len(), g.nonterminals@.len()));
        }
        assert forall|p: int|
            0 <= p < g.productions@.len() && prefix_nullable(
                *g,
                fs.nullable@,
                p,
                g.productions@[p].symbols@.len() as int,
            ) implies result.nullable@[(#[trigger] g.productions@[p]).nonterminal as int] by {
            assert(production_wf(g.productions@[p], g.terminals@.len(), g.nonterminals@.len()));
        }
    }
    (result, changed)
}

/// Whether any FIRST set grew or any nullability flag changed between the
/// two passes.
#[verifier::loop_isolation(false)]
fn detect_growth(fs: &FirstSets, new_first: &Vec<TokenSet>, new_nullable: &Vec<bool>) -> (changed:
    bool)
    requires
        new_first@.len() == fs.first@.len(),
        new_nullable@.len() == fs.first@.len(),
        fs.nullable@.len() == fs.first@.len(),
    ensures
        changed == exists|i: int|
            0 <= i < fs.first@.len() && ((#[trigger] fs.first@[i]).tokens@.len()
                < new_first@[i].tokens@.len() || fs.nullable@[i] != new_nullable@[i]),
{
    let n_nts = new_first.len();
    let mut changed = false;
    let mut k: usize = 0;
    while k < n_nts
        invariant
            0 <= k <= n_nts,
            n_nts == fs.first@.len(),
            fs.nullable@.len() == fs.first@.len(),
            changed == exists|m: int|
                0 <= m < k && ((#[trigger] fs.first@[m]).tokens@.len()
                    < new_first@[m].tokens@.len() || fs.nullable@[m] != new_nullable@[m]),
        decreases n_nts - k,
    {
        let cond = new_first[k].len() > fs.first[k].len() || new_nullable[k] != fs.nullable[k];
        let ghost was_changed = changed;
        if cond {
            changed = true;
        }
        proof {
            let kk = k as int;
            assert(changed == exists|m: int|
                0 <= m < kk + 1 && ((#[trigger] fs.first@[m]).tokens@.len()
                    < new_first@[m].tokens@.len() || fs.nullable@[m] != new_nullable@[m])) by {
                if cond {
                    assert(fs.first@[kk].tokens@.len() < new_first@[kk].tokens@.len()
                        || fs.nullable@[kk] != new_nullable@[kk]);
                } else if was_changed {
                    let m = choose|m: int|
                        0 <= m < kk && ((#[trigger] fs.first@[m]).tokens@.len()
                            < new_first@[m].tokens@.len() || fs.nullable@[m] != new_nullable@[m]);
                    assert(0 <= m < kk + 1 && (fs.first@[m].tokens@.len()
                        < new_first@[m].tokens@.len() || fs.nullable@[m] != new_nullable@[m]));
                } else {
                    if exists|m: int|
                        0 <= m < kk + 1 && ((#[trigger] fs.first@[m]).tokens@.len()
                            < new_first@[m].tokens@.len() || fs.nullable@[m] != new_nullable@[m]) {
                        let m = choose|m: int|
                            0 <= m < kk + 1 && ((#[trigger] fs.first@[m]).tokens@.len()
                                < new_first@[m].tokens@.len() || fs.nullable@[m]
                                != new_nullable@[m]);
                        assert(m == kk);
                        assert(false);
                    }
                }
            }
        }
        k = k + 1;
    }
    changed
}


/// Computes the FIRST sets of `g` as the least fixed point of
/// `first_round`: the passes repeat until none of the sets grows.
#[verifier::loop_isolation(false)]
pub fn compute_first(g: &Grammar) -> (r: FirstSets)
    requires
        grammar_wf(*g),
    ensures
        first_sets_wf(*g, r),
        first_closed(*g, r),
{
    let n_nts = g.nonterminals.len();
    let mut first: Vec<TokenSet> = Vec::new();
    let mut nullable: Vec<bool> = Vec::new();
    let mut i: usize = 0;
    while i < n_nts
        invariant
            0 <= i <= n_nts,
            first@.len() == i,
            nullable@.len() == i,
            forall|k: int| 0 <= k < i ==> tokenset_wf(#[trigger] first@[k], spec_n_tokens(*g)),
        decreases n_nts - i,
    {
        first.push(TokenSet { tokens: Vec::new() });
        nullable.push(false);
        i = i + 1;
    }
    let mut fs = FirstSets { first, nullable };
    proof {
        lemma_weight_bound(fs.first@, fs.nullable@, spec_n_tokens(*g));
    }
    #[verifier::loop_isolation(true)]
    loop
        invariant
            grammar_wf(*g),
            first_sets_wf(*g, fs),
        ensures
            first_sets_wf(*g, fs),
            first_closed(*g, fs),
        decreases fs.first@.len() * (spec_n_tokens(*g) + 1) - sets_weight(fs.first@, fs.nullable@),
    {
        let ghost prev = fs;
        let (new_fs, changed) = first_round(g, &fs);
        proof {
            lemma_weight_monotone(fs.first@, fs.nullable@, new_fs.first@, new_fs.nullable@);
            lemma_weight_bound(new_fs.first@, new_fs.nullable@, spec_n_tokens(*g));
        }
        let keep_going = changed;
        fs = new_fs;
        if !keep_going {
            proof {
                reveal(first_step_closed);
                // The pass changed nothing, so the step conclusions read off
                // the old sets also read off the new ones: a fixed point.
                assert forall|m: int|
                    0 <= m < prev.nullable@.len() implies fs.nullable@[m] == prev.nullable@[m] by {
                    assert(!(prev.first@[m].tokens@.len() < fs.first@[m].tokens@.len()
                        || prev.nullable@[m] != fs.nullable@[m]));
                }
                assert(fs.nullable@ =~= prev.nullable@);
                assert forall|m: int|
                    0 <= m < prev.first@.len() implies (#[trigger] fs.first@[m]).tokens@
                    == prev.first@[m].tokens@ by {
                    assert(!(prev.first@[m].tokens@.len() < fs.first@[m].tokens@.len()
                        || prev.nullable@[m] != fs.nullable@[m]));
                    assert(prev.first@[m].tokens@.len() <= fs.first@[m].tokens@.len());
                }
                assert forall|p: int, j: int|
                    #![trigger g.productions@[p].symbols@[j]]
                    0 <= p < g.productions@.len() && 0 <= j < g.productions@[p].symbols@.len()
                        && prefix_nullable(*g, fs.nullable@, p, j)
                    implies match g.productions@[p].symbols@[j] {
                        Symbol::Terminal(t) => fs.first@[g.productions@[p].nonterminal as int].tokens@.contains(t),
                        Symbol::Nonterminal(m) => token_subset(
                            fs.first@[m as int],
                            fs.first@[g.productions@[p].nonterminal as int],
                        ),
                    } by {
                    assert(prefix_nullable(*g, prev.nullable@, p, j));
                    assert(production_wf(
                        g.productions@[p],
                        g.terminals@.len(),
                        g.nonterminals@.len(),
                    ));
                    match g.productions@[p].symbols@[j] {
                        Symbol::Terminal(t) => {},
                        Symbol::Nonterminal(m) => {
                            assert(token_subset(
                                prev.first@[m as int],
                                fs.first@[g.productions@[p].nonterminal as int],
                            ));
                            assert forall|t: usize| fs.first@[m as int].tokens@.contains(
                                t,
                            ) implies fs.first@[g.productions@[p].nonterminal as int].tokens@.contains(
                                t,
                            ) by {
                                assert(prev.first@[m as int].tokens@.contains(t));
                            }
                        },
                    }
                }
                assert forall|p: int|
                    0 <= p < g.productions@.len() && prefix_nullable(
                        *g,
                        fs.nullable@,
                        p,
                        g.productions@[p].symbols@.len() as int,
                    ) implies fs.nullable@[(#[trigger] g.productions@[p]).nonterminal as int] by {
                    assert(prefix_nullable(
                        *g,
                        prev.nullable@,
                        p,
                        g.productions@[p].symbols@.len() as int,
                    ));
                }
                assert(first_closed(*g, fs));
            }
            break;
        }
    }
    fs
}

impl TokenSet {
    /// A copy of this set with an equal token sequence.
    pub fn duplicate_set(&self) -> (r: TokenSet)
        ensures
            r.tokens@ == self.tokens@,
    {
        let mut tokens: Vec<usize> = Vec::new();
        let mut i: usize = 0;
        while i < self.tokens.len()
            invariant
                0 <= i <= self.tokens@.len(),
                tokens@ == self.tokens@.subrange(0, i as int),
            decreases self.tokens@.len() - i,
        {
            tokens.push(self.tokens[i]);
            proof {
                assert(tokens@ =~= self.tokens@.subrange(0, i + 1));
            }
            i = i + 1;
        }
        proof {
            assert(tokens@ =~= self.tokens@);
        }
        TokenSet { tokens }
    }
}

} // verus!
