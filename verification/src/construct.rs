//! Construction of the canonical LR collection: closure of item sets, goto
//! transitions, the state discovery loop with deduplication by structural
//! item-set equality, reduction extraction, and conflict detection. The
//! outcome is `Ok(states)` exactly when no action collision exists;
//! otherwise every collision is recorded and the partial automaton is
//! returned alongside them.

use vstd::prelude::*;

verus! {

use crate::first::FirstSets;
use crate::first::compute_first;
use crate::first::first_sets_wf;
use crate::grammar::Grammar;
use crate::grammar::Symbol;
use crate::grammar::grammar_wf;
use crate::grammar::production_wf;
use crate::grammar::spec_n_tokens;
use crate::lookahead::Lookahead;
use crate::lookahead::TokenSet;
use crate::lookahead::lemma_tokenset_members_bounded;
use crate::lookahead::lemma_tokenset_wf_from_members;
use crate::lookahead::lookahead_wf;
use crate::lookahead::spec_la_accepts;
use crate::lookahead::tokenset_wf;
use crate::state::Action;
use crate::state::Conflict;
use crate::state::Item;
use crate::state::Items;
use crate::state::Lr1Result;
use crate::state::State;
use crate::state::TableConstructionError;
use crate::state::conflict_wf;
use crate::state::conflicts_wf;
use crate::state::insert_item_sorted;
use crate::state::item_wf;
use crate::state::items_contain;
use crate::state::items_contain_exec;
use crate::state::items_sorted;
use crate::state::items_wf;
use crate::state::lemma_insert_keeps_items_wf;
use crate::state::lemma_item_eq_wf;
use crate::state::spec_item_eq;
use crate::state::state_wf;
use crate::state::states_wf;

/// Whether two lookaheads admit a common token: `Nil` (no lookahead
/// tracked) overlaps with everything.
pub open spec fn la_overlap(a: Lookahead, b: Lookahead) -> bool {
    match (a, b) {
        (Lookahead::Nil, _) => true,
        (_, Lookahead::Nil) => true,
        (Lookahead::TokenSet(x), Lookahead::TokenSet(y)) => exists|t: usize|
            x.tokens@.contains(t) && y.tokens@.contains(t),
    }
}

/// Reduction entry `ri` of `st` collides with nothing: no shift key is
/// accepted by its lookahead, and no later reduction of a different
/// production shares a lookahead token with it.
pub open spec fn reduction_ok(st: State, ri: int) -> bool {
    &&& forall|si: int|
        0 <= si < st.shifts@.len() ==> !spec_la_accepts(
            st.reductions@[ri].0,
            (#[trigger] st.shifts@[si]).0,
        )
    &&& forall|rj: int|
        ri < rj < st.reductions@.len() ==> !((#[trigger] st.reductions@[rj]).1
            != st.reductions@[ri].1 && la_overlap(st.reductions@[ri].0, st.reductions@[rj].0))
}

/// The state has no shift/reduce and no reduce/reduce collision.
pub open spec fn state_conflict_free(st: State) -> bool {
    forall|ri: int| 0 <= ri < st.reductions@.len() ==> reduction_ok(st, ri)
}

/// No state of the automaton has an action collision.
pub open spec fn states_conflict_free(states: Seq<State>) -> bool {
    forall|s: int| 0 <= s < states.len() ==> state_conflict_free(#[trigger] states[s])
}

/// Every item of `st` with the dot at the end of its production has a
/// matching reduction entry: its production, under a lookahead equal to the
/// item's.
pub open spec fn reductions_complete(g: Grammar, st: State) -> bool {
    forall|k: int|
        0 <= k < st.items.vec@.len() && (#[trigger] st.items.vec@[k]).index
            == g.productions@[st.items.vec@[k].production as int].symbols@.len() ==> exists|e: int|
            0 <= e < st.reductions@.len() && (#[trigger] st.reductions@[e]).1
                == st.items.vec@[k].production && crate::lookahead::spec_lookahead_eq(
                st.reductions@[e].0,
                st.items.vec@[k].lookahead,
            )
}

/// The conflict records an actual collision in `states`: its owning state
/// has a reduction of the conflict's production whose lookahead accepts the
/// recorded shift (shift/reduce), or two reduction entries of the two
/// distinct productions whose lookaheads overlap (reduce/reduce).
pub open spec fn conflict_genuine(g: Grammar, states: Seq<State>, c: Conflict) -> bool {
    &&& c.state < states.len()
    &&& match c.action {
        Action::Shift(t, target) => exists|ri: int, si: int|
            #![trigger states[c.state as int].reductions@[ri], states[c.state as int].shifts@[si]]
            0 <= ri < states[c.state as int].reductions@.len() && 0 <= si
                < states[c.state as int].shifts@.len()
                && states[c.state as int].reductions@[ri].1 == c.production
                && states[c.state as int].shifts@[si] == (t, target) && spec_la_accepts(
                states[c.state as int].reductions@[ri].0,
                t,
            ),
        Action::Reduce(p2) => c.production != p2 && exists|ri: int, rj: int|
            #![trigger states[c.state as int].reductions@[ri], states[c.state as int].reductions@[rj]]
            0 <= ri < rj < states[c.state as int].reductions@.len()
                && states[c.state as int].reductions@[ri].1 == c.production
                && states[c.state as int].reductions@[rj].1 == p2 && la_overlap(
                states[c.state as int].reductions@[ri].0,
                states[c.state as int].reductions@[rj].0,
            ),
    }
}

/// Every recorded conflict is an actual collision.
pub open spec fn conflicts_genuine(g: Grammar, states: Seq<State>, cs: Seq<Conflict>) -> bool {
    forall|i: int| 0 <= i < cs.len() ==> conflict_genuine(g, states, #[trigger] cs[i])
}

/// Membership transfers across pointwise structural equality of item lists.
pub proof fn lemma_items_eq_contain(a: Seq<Item>, b: Seq<Item>, x: Item)
    requires
        crate::state::spec_items_eq(a, b),
        items_contain(b, x),
    ensures
        items_contain(a, x),
{
    let k = choose|k: int| 0 <= k < b.len() && spec_item_eq(b[k], x);
    assert(spec_item_eq(a[k], b[k]));
    crate::state::lemma_item_eq_trans(a[k], b[k], x);
}

/// An edge whose kernel flows through a membership-preserving closure into
/// a state with the same items carries the advanced items into that state.
pub proof fn lemma_edge_kernel(
    g: Grammar,
    src_items: Seq<Item>,
    sym: Symbol,
    kernel: Seq<Item>,
    closed: Seq<Item>,
    dst_items: Seq<Item>,
)
    requires
        goto_kernel_in(g, src_items, sym, kernel),
        forall|x: Item| items_contain(kernel, x) ==> items_contain(closed, x),
        crate::state::spec_items_eq(dst_items, closed),
    ensures
        goto_kernel_in(g, src_items, sym, dst_items),
{
    assert forall|k: int|
        0 <= k < src_items.len() && (#[trigger] src_items[k]).index
            < g.productions@[src_items[k].production as int].symbols@.len()
            && g.productions@[src_items[k].production as int].symbols@[src_items[k].index as int]
            == sym implies items_contain(
        dst_items,
        Item {
            production: src_items[k].production,
            index: (src_items[k].index + 1) as usize,
            lookahead: src_items[k].lookahead,
        },
    ) by {
        let adv = Item {
            production: src_items[k].production,
            index: (src_items[k].index + 1) as usize,
            lookahead: src_items[k].lookahead,
        };
        assert(items_contain(kernel, adv));
        assert(items_contain(closed, adv));
        lemma_items_eq_contain(dst_items, closed, adv);
    }
}

/// A genuine conflict refutes collision-freedom of the automaton.
pub proof fn lemma_genuine_conflict_refutes_freedom(g: Grammar, states: Seq<State>, c: Conflict)
    requires
        conflict_genuine(g, states, c),
    ensures
        !states_conflict_free(states),
{
    let st = states[c.state as int];
    match c.action {
        Action::Shift(t, target) => {
            let (ri, si) = choose|ri: int, si: int|
                #![trigger st.reductions@[ri], st.shifts@[si]]
                0 <= ri < st.reductions@.len() && 0 <= si < st.shifts@.len()
                    && st.reductions@[ri].1 == c.production && st.shifts@[si] == (t, target)
                    && spec_la_accepts(st.reductions@[ri].0, t);
            assert(!reduction_ok(st, ri)) by {
                if reduction_ok(st, ri) {
                    assert(!spec_la_accepts(st.reductions@[ri].0, st.shifts@[si].0));
                }
            }
            assert(!state_conflict_free(st));
        },
        Action::Reduce(p2) => {
            let (ri, rj) = choose|ri: int, rj: int|
                #![trigger st.reductions@[ri], st.reductions@[rj]]
                0 <= ri < rj < st.reductions@.len() && st.reductions@[ri].1 == c.production
                    && st.reductions@[rj].1 == p2 && la_overlap(
                    st.reductions@[ri].0,
                    st.reductions@[rj].0,
                );
            assert(!reduction_ok(st, ri)) by {
                if reduction_ok(st, ri) {
                    assert(!(st.reductions@[rj].1 != st.reductions@[ri].1 && la_overlap(
                        st.reductions@[ri].0,
                        st.reductions@[rj].0,
                    )));
                }
            }
            assert(!state_conflict_free(st));
        },
    }
}

/// The goto kernel lands in the target: every item of `src_items` whose dot
/// stands immediately before `sym` appears in `dst_items` advanced by one.
pub open spec fn goto_kernel_in(
    g: Grammar,
    src_items: Seq<Item>,
    sym: Symbol,
    dst_items: Seq<Item>,
) -> bool {
    forall|k: int|
        0 <= k < src_items.len() && (#[trigger] src_items[k]).index
            < g.productions@[src_items[k].production as int].symbols@.len()
            && g.productions@[src_items[k].production as int].symbols@[src_items[k].index as int]
            == sym ==> items_contain(
            dst_items,
            Item {
                production: src_items[k].production,
                index: (src_items[k].index + 1) as usize,
                lookahead: src_items[k].lookahead,
            },
        )
}

/// Every shift and goto edge of the automaton carries its source's advanced
/// items into its target state.
pub open spec fn states_goto_kernels(g: Grammar, states: Seq<State>) -> bool {
    &&& forall|i: int, e: int|
        #![trigger states[i].shifts@[e]]
        0 <= i < states.len() && 0 <= e < states[i].shifts@.len() ==> goto_kernel_in(
            g,
            states[i].items.vec@,
            Symbol::Terminal(states[i].shifts@[e].0),
            states[states[i].shifts@[e].1 as int].items.vec@,
        )
    &&& forall|i: int, e: int|
        #![trigger states[i].gotos@[e]]
        0 <= i < states.len() && 0 <= e < states[i].gotos@.len() ==> goto_kernel_in(
            g,
            states[i].items.vec@,
            Symbol::Nonterminal(states[i].gotos@[e].0),
            states[states[i].gotos@[e].1 as int].items.vec@,
        )
}

/// Some shift entry of `st` has key `t`.
pub open spec fn has_shift(st: State, t: usize) -> bool {
    exists|e: int| 0 <= e < st.shifts@.len() && (#[trigger] st.shifts@[e]).0 == t
}

/// Some goto entry of `st` has key `n`.
pub open spec fn has_goto(st: State, n: usize) -> bool {
    exists|e: int| 0 <= e < st.gotos@.len() && (#[trigger] st.gotos@[e]).0 == n
}

/// Every symbol with the dot immediately before it in some item of `st` has
/// its transition: a shift entry for a terminal, a goto entry for a
/// nonterminal.
pub open spec fn transitions_complete(g: Grammar, st: State) -> bool {
    forall|k: int|
        0 <= k < st.items.vec@.len() && (#[trigger] st.items.vec@[k]).index
            < g.productions@[st.items.vec@[k].production as int].symbols@.len()
            ==> match g.productions@[st.items.vec@[k].production as int].symbols@[st.items.vec@[k].index as int] {
            Symbol::Terminal(t) => has_shift(st, t),
            Symbol::Nonterminal(n) => has_goto(st, n),
        }
}

/// Every state records a transition for each symbol its dots stand before.
pub open spec fn states_transitioned(g: Grammar, states: Seq<State>) -> bool {
    forall|i: int| 0 <= i < states.len() ==> transitions_complete(g, #[trigger] states[i])
}

/// Every state records a reduction entry for each of its completed items.
pub open spec fn states_reduced(g: Grammar, states: Seq<State>) -> bool {
    forall|i: int| 0 <= i < states.len() ==> reductions_complete(g, #[trigger] states[i])
}

/// Every state's item set is closed under expansion.
pub open spec fn states_closed(g: Grammar, states: Seq<State>) -> bool {
    forall|i: int|
        0 <= i < states.len() ==> expansion_closed(g, (#[trigger] states[i]).items.vec@)
}

/// The state holds an item for the augmented start production with the dot
/// at position zero: the shape of the initial state.
pub open spec fn has_start_item(g: Grammar, st: State) -> bool {
    exists|k: int|
        0 <= k < st.items.vec@.len() && (#[trigger] st.items.vec@[k]).production
            == g.start_production && st.items.vec@[k].index == 0
}

/// Item `it` has its dot immediately before the nonterminal `m`.
pub open spec fn dot_before_nonterminal(g: Grammar, it: Item, m: int) -> bool {
    &&& it.production < g.productions@.len()
    &&& it.index < g.productions@[it.production as int].symbols@.len()
    &&& g.productions@[it.production as int].symbols@[it.index as int] == Symbol::Nonterminal(
        m as usize,
    )
}

/// Some item of `s` is the implied item of production `q`: dot at zero.
pub open spec fn contains_implied(s: Seq<Item>, q: int) -> bool {
    exists|j: int| 0 <= j < s.len() && (#[trigger] s[j]).production == q && s[j].index == 0
}

/// Closed under expansion: whenever an item's dot stands before a
/// nonterminal, the set holds an implied item for every production of that
/// nonterminal.
pub open spec fn expansion_closed(g: Grammar, s: Seq<Item>) -> bool {
    forall|k: int, q: int|
        #![trigger s[k], g.productions@[q]]
        0 <= k < s.len() && 0 <= q < g.productions@.len() && dot_before_nonterminal(
            g,
            s[k],
            g.productions@[q].nonterminal as int,
        ) ==> contains_implied(s, q)
}

/// Appending an item keeps every implied item present.
proof fn lemma_implied_extend(s: Seq<Item>, y: Item)
    ensures
        forall|q: int| contains_implied(s, q) ==> contains_implied(s.push(y), q),
{
    assert forall|q: int| contains_implied(s, q) implies contains_implied(s.push(y), q) by {
        let j = choose|j: int| 0 <= j < s.len() && (#[trigger] s[j]).production == q && s[j].index
            == 0;
        assert(s.push(y)[j] == s[j]);
    }
}

/// Equality test of two symbols.
fn symbol_matches(a: Symbol, b: Symbol) -> (r: bool)
    ensures
        r == (a == b),
{
    match (a, b) {
        (Symbol::Terminal(x), Symbol::Terminal(y)) => x == y,
        (Symbol::Nonterminal(x), Symbol::Nonterminal(y)) => x == y,
        _ => false,
    }
}

/// The FIRST set of the symbols of production `p` from position `from` on,
/// merged with the tokens of `parent` when that whole remainder is
/// nullable: the lookahead context of an implied closure item.
#[verifier::loop_isolation(false)]
fn first_of_rest(g: &Grammar, fs: &FirstSets, p: usize, from: usize, parent: &Lookahead) -> (r:
    TokenSet)
    requires
        grammar_wf(*g),
        first_sets_wf(*g, *fs),
        p < g.productions@.len(),
        from <= g.productions@[p as int].symbols@.len(),
        lookahead_wf(*parent, spec_n_tokens(*g)),
    ensures
        tokenset_wf(r, spec_n_tokens(*g)),
{
    proof {
        assert(production_wf(g.productions@[p as int], g.terminals@.len(), g.nonterminals@.len()));
    }
    let mut acc = TokenSet { tokens: Vec::new() };
    let n_syms = g.productions[p].symbols.len();
    let mut j: usize = from;
    let mut blocked = false;
    while j < n_syms
        invariant
            from <= j <= n_syms,
            tokenset_wf(acc, spec_n_tokens(*g)),
        decreases n_syms - j,
    {
        match g.productions[p].symbols[j] {
            Symbol::Terminal(t) => {
                let ghost before = acc;
                acc.insert(t);
                proof {
                    lemma_tokenset_members_bounded(before, spec_n_tokens(*g));
                    lemma_tokenset_wf_from_members(acc, spec_n_tokens(*g));
                }
                blocked = true;
                j = n_syms;
            },
            Symbol::Nonterminal(m) => {
                proof {
                    assert(tokenset_wf(fs.first@[m as int], spec_n_tokens(*g)));
                }
                let merged = acc.union(&fs.first[m]);
                proof {
                    lemma_tokenset_members_bounded(acc, spec_n_tokens(*g));
                    lemma_tokenset_members_bounded(fs.first@[m as int], spec_n_tokens(*g));
                    lemma_tokenset_wf_from_members(merged, spec_n_tokens(*g));
                }
                acc = merged;
                if !fs.nullable[m] {
                    blocked = true;
                    j = n_syms;
                } else {
                    j = j + 1;
                }
            },
        }
    }
    if !blocked {
        match parent {
            Lookahead::Nil => {},
            Lookahead::TokenSet(pts) => {
                let merged = acc.union(pts);
                proof {
                    lemma_tokenset_members_bounded(acc, spec_n_tokens(*g));
                    lemma_tokenset_members_bounded(*pts, spec_n_tokens(*g));
                    lemma_tokenset_wf_from_members(merged, spec_n_tokens(*g));
                }
                acc = merged;
            },
        }
    }
    acc
}

/// The closure of `kernel`: repeatedly, for every item with the dot before
/// a nonterminal, one implied item per production of that nonterminal at
/// dot position zero, with the lookahead computed from the follow context
/// (`Nil` in LR(0) mode); the result is deduplicated by structural item
/// equality and returned in canonical sorted order.
#[verifier::loop_isolation(false)]
#[verifier::rlimit(100)]
pub fn closure(g: &Grammar, fs: &FirstSets, kernel: &Vec<Item>, lr1: bool) -> (r: Vec<Item>)
    requires
        grammar_wf(*g),
        first_sets_wf(*g, *fs),
        items_wf(*g, kernel@),
    ensures
        items_wf(*g, r@),
        items_sorted(r@),
        forall|x: Item| items_contain(kernel@, x) ==> items_contain(r@, x),
        expansion_closed(*g, r@),
        forall|j: int|
            0 <= j < r@.len() ==> items_contain(kernel@, #[trigger] r@[j]) || r@[j].index == 0,
{
    let mut items: Vec<Item> = Vec::new();
    let mut k: usize = 0;
    while k < kernel.len()
        invariant
            0 <= k <= kernel@.len(),
            items_wf(*g, items@),
            forall|x: Item|
                items_contain(kernel@.subrange(0, k as int), x) ==> items_contain(items@, x),
            forall|j: int|
                0 <= j < items@.len() ==> items_contain(kernel@, #[trigger] items@[j]),
        decreases kernel@.len() - k,
    {
        let cand = kernel[k].duplicate();
        let ghost cand_g = cand;
        let ghost items_before = items@;
        proof {
            lemma_item_eq_wf(*g, cand, kernel@[k as int]);
        }
        let already = items_contain_exec(&items, &cand);
        if !already {
            items.push(cand);
        }
        proof {
            if !already {
                crate::state::lemma_contains_extend(items_before, cand_g);
                assert forall|j: int|
                    0 <= j < items@.len() implies items_contain(kernel@, #[trigger] items@[j]) by {
                    if j < items@.len() - 1 {
                        assert(items@[j] == items_before[j]);
                    } else {
                        assert(items@[j] == cand_g);
                        crate::state::lemma_item_eq_sym(cand_g, kernel@[k as int]);
                        assert(spec_item_eq(kernel@[k as int], cand_g));
                    }
                }
            }
            assert forall|x: Item|
                items_contain(kernel@.subrange(0, k + 1), x) implies items_contain(
                items@,
                x,
            ) by {
                let pre = kernel@.subrange(0, k + 1);
                let j = choose|j: int| 0 <= j < pre.len() && spec_item_eq(pre[j], x);
                if j < k {
                    assert(kernel@.subrange(0, k as int)[j] == pre[j]);
                    assert(items_contain(kernel@.subrange(0, k as int), x));
                    assert(items_contain(items_before, x));
                    if !already {
                        let m = choose|m: int|
                            0 <= m < items_before.len() && spec_item_eq(items_before[m], x);
                        assert(items@[m] == items_before[m]);
                    }
                } else {
                    assert(spec_item_eq(kernel@[k as int], x));
                    crate::state::lemma_item_eq_trans(cand_g, kernel@[k as int], x);
                    if already {
                        let m = choose|m: int|
                            0 <= m < items_before.len() && spec_item_eq(items_before[m], cand_g);
                        crate::state::lemma_item_eq_trans(items_before[m], cand_g, x);
                        assert(items@[m] == items_before[m]);
                        assert(items_contain(items@, x));
                    } else {
                        assert(items@[items@.len() - 1] == cand_g);
                        assert(items_contain(items@, x));
                    }
                }
            }
        }
        k = k + 1;
    }
    proof {
        assert(kernel@.subrange(0, kernel@.len() as int) =~= kernel@);
    }
    let mut i: usize = 0;
    while i < items.len()
        invariant
            items_wf(*g, items@),
            0 <= i,
            forall|x: Item| items_contain(kernel@, x) ==> items_contain(items@, x),
            forall|j: int|
                0 <= j < items@.len() ==> items_contain(kernel@, #[trigger] items@[j])
                    || items@[j].index == 0,
            forall|k: int, q: int|
                #![trigger items@[k], g.productions@[q]]
                0 <= k < i && k < items@.len() && 0 <= q < g.productions@.len()
                    && dot_before_nonterminal(
                    *g,
                    items@[k],
                    g.productions@[q].nonterminal as int,
                ) ==> contains_implied(items@, q),
        decreases usize::MAX - i,
    {
        let it = items[i].duplicate();
        proof {
            lemma_item_eq_wf(*g, it, items@[i as int]);
            assert(production_wf(
                g.productions@[it.production as int],
                g.terminals@.len(),
                g.nonterminals@.len(),
            ));
        }
        if it.index < g.productions[it.production].symbols.len() {
            match g.productions[it.production].symbols[it.index] {
                Symbol::Nonterminal(m) => {
                    let la_new: Lookahead = if lr1 {
                        Lookahead::TokenSet(
                            first_of_rest(g, fs, it.production, it.index + 1, &it.lookahead),
                        )
                    } else {
                        Lookahead::Nil
                    };
                    let mut q: usize = 0;
                    while q < g.productions.len()
                        invariant
                            0 <= q <= g.productions@.len(),
                            i < items@.len(),
                            spec_item_eq(it, items@[i as int]),
                            items_wf(*g, items@),
                            lookahead_wf(la_new, spec_n_tokens(*g)),
                            forall|x: Item|
                                items_contain(kernel@, x) ==> items_contain(items@, x),
                            forall|j: int|
                                0 <= j < items@.len() ==> items_contain(
                                    kernel@,
                                    #[trigger] items@[j],
                                ) || items@[j].index == 0,
                            forall|k: int, q2: int|
                                #![trigger items@[k], g.productions@[q2]]
                                0 <= k < i && 0 <= q2 < g.productions@.len()
                                    && dot_before_nonterminal(
                                    *g,
                                    items@[k],
                                    g.productions@[q2].nonterminal as int,
                                ) ==> contains_implied(items@, q2),
                            forall|q2: int|
                                0 <= q2 < q && (#[trigger] g.productions@[q2]).nonterminal == m
                                    ==> contains_implied(items@, q2),
                        decreases g.productions@.len() - q,
                    {
                        if g.productions[q].nonterminal == m {
                            let cand = Item {
                                production: q,
                                index: 0,
                                lookahead: la_new.duplicate(),
                            };
                            let ghost cand_g = cand;
                            let ghost items_before = items@;
                            proof {
                                crate::lookahead::lemma_lookahead_eq_wf(
                                    cand.lookahead,
                                    la_new,
                                    spec_n_tokens(*g),
                                );
                            }
                            let already = items_contain_exec(&items, &cand);
                            if !already {
                                items.push(cand);
                                proof {
                                    crate::state::lemma_contains_extend(items_before, cand_g);
                                    lemma_implied_extend(items_before, cand_g);
                                    assert(items@[items@.len() - 1] == cand_g);
                                    assert(contains_implied(items@, q as int));
                                    assert forall|j: int|
                                        0 <= j < items@.len() implies items_contain(
                                        kernel@,
                                        #[trigger] items@[j],
                                    ) || items@[j].index == 0 by {
                                        if j < items@.len() - 1 {
                                            assert(items@[j] == items_before[j]);
                                        }
                                    }
                                }
                            } else {
                                proof {
                                    let w = choose|w: int|
                                        0 <= w < items@.len() && spec_item_eq(
                                            items@[w],
                                            cand_g,
                                        );
                                    assert(items@[w].production == q && items@[w].index == 0);
                                    assert(contains_implied(items@, q as int));
                                }
                            }
                        }
                        q = q + 1;
                    }
                    proof {
                        assert forall|k: int, q2: int|
                            #![trigger items@[k], g.productions@[q2]]
                            0 <= k < i + 1 && k < items@.len() && 0 <= q2
                                < g.productions@.len() && dot_before_nonterminal(
                                *g,
                                items@[k],
                                g.productions@[q2].nonterminal as int,
                            ) implies contains_implied(items@, q2) by {
                            if k == i {
                                assert(spec_item_eq(it, items@[i as int]));
                                assert(items@[k].production == it.production);
                                assert(items@[k].index == it.index);
                                assert(g.productions@[it.production as int].symbols@[it.index as int]
                                    == Symbol::Nonterminal(m));
                                assert(g.productions@[q2].nonterminal == m);
                            }
                        }
                    }
                },
                Symbol::Terminal(_) => {
                    proof {
                        assert forall|k: int, q2: int|
                            #![trigger items@[k], g.productions@[q2]]
                            0 <= k < i + 1 && k < items@.len() && 0 <= q2
                                < g.productions@.len() && dot_before_nonterminal(
                                *g,
                                items@[k],
                                g.productions@[q2].nonterminal as int,
                            ) implies contains_implied(items@, q2) by {
                            if k == i {
                                assert(items@[k].production == it.production);
                                assert(items@[k].index == it.index);
                                assert(false);
                            }
                        }
                    }
                },
            }
        } else {
            proof {
                assert forall|k: int, q2: int|
                    #![trigger items@[k], g.productions@[q2]]
                    0 <= k < i + 1 && k < items@.len() && 0 <= q2 < g.productions@.len()
                        && dot_before_nonterminal(
                        *g,
                        items@[k],
                        g.productions@[q2].nonterminal as int,
                    ) implies contains_implied(items@, q2) by {
                    if k == i {
                        assert(items@[k].production == it.production);
                        assert(items@[k].index == it.index);
                        assert(false);
                    }
                }
            }
        }
        i = i + 1;
    }
    proof {
        assert(expansion_closed(*g, items@));
    }
    sort_items(g, kernel, &items)
}

/// Sorts a deduplicated item set into the canonical order, preserving its
/// membership, its closure under expansion, and the provenance of every
/// item (a kernel item, or an implied item with the dot at zero).
#[verifier::loop_isolation(false)]
#[verifier::rlimit(100)]
fn sort_items(g: &Grammar, kernel: &Vec<Item>, items: &Vec<Item>) -> (r: Vec<Item>)
    requires
        grammar_wf(*g),
        items_wf(*g, items@),
        expansion_closed(*g, items@),
        forall|x: Item| items_contain(kernel@, x) ==> items_contain(items@, x),
        forall|j: int|
            0 <= j < items@.len() ==> items_contain(kernel@, #[trigger] items@[j])
                || items@[j].index == 0,
    ensures
        items_wf(*g, r@),
        items_sorted(r@),
        forall|x: Item| items_contain(kernel@, x) ==> items_contain(r@, x),
        expansion_closed(*g, r@),
        forall|j: int|
            0 <= j < r@.len() ==> items_contain(kernel@, #[trigger] r@[j]) || r@[j].index == 0,
{
    let mut sorted: Vec<Item> = Vec::new();
    let mut s: usize = 0;
    while s < items.len()
        invariant
            0 <= s <= items@.len(),
            items_wf(*g, items@),
            items_wf(*g, sorted@),
            items_sorted(sorted@),
            forall|x: Item|
                items_contain(items@.subrange(0, s as int), x) ==> items_contain(sorted@, x),
            forall|x: Item| items_contain(sorted@, x) ==> items_contain(items@, x),
            forall|j: int|
                0 <= j < sorted@.len() ==> items_contain(kernel@, #[trigger] sorted@[j])
                    || sorted@[j].index == 0,
        decreases items@.len() - s,
    {
        let ghost before = sorted@;
        let cand = items[s].duplicate();
        proof {
            lemma_item_eq_wf(*g, cand, items@[s as int]);
        }
        let ghost cand_snapshot = cand;
        insert_item_sorted(&mut sorted, cand);
        proof {
            lemma_insert_keeps_items_wf(*g, before, sorted@, cand_snapshot);
            assert forall|x: Item|
                items_contain(items@.subrange(0, s + 1), x) implies items_contain(
                sorted@,
                x,
            ) by {
                let pre = items@.subrange(0, s + 1);
                let j = choose|j: int| 0 <= j < pre.len() && spec_item_eq(pre[j], x);
                if j < s {
                    assert(items@.subrange(0, s as int)[j] == pre[j]);
                    assert(items_contain(items@.subrange(0, s as int), x));
                    assert(items_contain(before, x));
                    let m = choose|m: int| 0 <= m < before.len() && spec_item_eq(before[m], x);
                    if sorted@ == before {
                        assert(spec_item_eq(sorted@[m], x));
                    } else {
                        let pos = choose|pos: int|
                            0 <= pos <= before.len() && sorted@ == before.subrange(0, pos)
                                + seq![cand_snapshot] + before.subrange(
                                pos,
                                before.len() as int,
                            );
                        if m < pos {
                            assert(sorted@[m] == before[m]);
                            assert(spec_item_eq(sorted@[m], x));
                        } else {
                            assert(sorted@[m + 1] == before[m]);
                            assert(spec_item_eq(sorted@[m + 1], x));
                        }
                    }
                } else {
                    assert(spec_item_eq(items@[s as int], x));
                    crate::state::lemma_item_eq_trans(cand_snapshot, items@[s as int], x);
                    let m = choose|m: int|
                        0 <= m < sorted@.len() && spec_item_eq(sorted@[m], cand_snapshot);
                    crate::state::lemma_item_eq_trans(sorted@[m], cand_snapshot, x);
                    assert(spec_item_eq(sorted@[m], x));
                }
            }
            assert forall|x: Item| items_contain(sorted@, x) implies items_contain(
                items@,
                x,
            ) by {
                let j = choose|j: int| 0 <= j < sorted@.len() && spec_item_eq(sorted@[j], x);
                if sorted@ == before {
                    assert(items_contain(before, x));
                } else {
                    let pos = choose|pos: int|
                        0 <= pos <= before.len() && sorted@ == before.subrange(0, pos)
                            + seq![cand_snapshot] + before.subrange(pos, before.len() as int);
                    if j < pos {
                        assert(sorted@[j] == before[j]);
                        assert(items_contain(before, x));
                    } else if j == pos {
                        assert(sorted@[j] == cand_snapshot);
                        crate::state::lemma_item_eq_sym(cand_snapshot, items@[s as int]);
                        crate::state::lemma_item_eq_trans(items@[s as int], cand_snapshot, x);
                        assert(items_contain(items@, x));
                    } else {
                        assert(sorted@[j] == before[j - 1]);
                        assert(items_contain(before, x));
                    }
                }
            }
            assert forall|j: int|
                0 <= j < sorted@.len() implies items_contain(kernel@, #[trigger] sorted@[j])
                || sorted@[j].index == 0 by {
                if sorted@ == before {
                } else {
                    let pos = choose|pos: int|
                        0 <= pos <= before.len() && sorted@ == before.subrange(0, pos)
                            + seq![cand_snapshot] + before.subrange(pos, before.len() as int);
                    if j < pos {
                        assert(sorted@[j] == before[j]);
                    } else if j == pos {
                        assert(sorted@[j] == cand_snapshot);
                        if items_contain(kernel@, items@[s as int]) {
                            let w = choose|w: int|
                                0 <= w < kernel@.len() && spec_item_eq(
                                    kernel@[w],
                                    items@[s as int],
                                );
                            crate::state::lemma_item_eq_sym(cand_snapshot, items@[s as int]);
                            crate::state::lemma_item_eq_trans(
                                kernel@[w],
                                items@[s as int],
                                cand_snapshot,
                            );
                        }
                    } else {
                        assert(sorted@[j] == before[j - 1]);
                    }
                }
            }
        }
        s = s + 1;
    }
    proof {
        assert(items@.subrange(0, items@.len() as int) =~= items@);
        assert forall|k: int, q: int|
            #![trigger sorted@[k], g.productions@[q]]
            0 <= k < sorted@.len() && 0 <= q < g.productions@.len() && dot_before_nonterminal(
                *g,
                sorted@[k],
                g.productions@[q].nonterminal as int,
            ) implies contains_implied(sorted@, q) by {
            assert(spec_item_eq(sorted@[k], sorted@[k]));
            assert(items_contain(sorted@, sorted@[k]));
            assert(items_contain(items@, sorted@[k]));
            let w = choose|w: int| 0 <= w < items@.len() && spec_item_eq(items@[w], sorted@[k]);
            assert(items@[w].production == sorted@[k].production);
            assert(items@[w].index == sorted@[k].index);
            assert(dot_before_nonterminal(*g, items@[w], g.productions@[q].nonterminal as int));
            assert(contains_implied(items@, q));
            let v = choose|v: int|
                0 <= v < items@.len() && (#[trigger] items@[v]).production == q && items@[v].index
                    == 0;
            assert(spec_item_eq(items@[v], items@[v]));
            assert(items_contain(items@, items@[v]));
            assert(items_contain(sorted@, items@[v]));
            let u = choose|u: int| 0 <= u < sorted@.len() && spec_item_eq(sorted@[u], items@[v]);
            assert(sorted@[u].production == q && sorted@[u].index == 0);
        }
        assert(expansion_closed(*g, sorted@));
    }
    sorted
}


/// The kernel of the goto transition: every item of `items` with the dot
/// immediately before `sym`, its dot advanced by one.
#[verifier::loop_isolation(false)]
fn advance_items(g: &Grammar, items: &Vec<Item>, sym: Symbol) -> (r: Vec<Item>)
    requires
        grammar_wf(*g),
        items_wf(*g, items@),
    ensures
        items_wf(*g, r@),
        goto_kernel_in(*g, items@, sym, r@),
{
    let mut r: Vec<Item> = Vec::new();
    let mut k: usize = 0;
    while k < items.len()
        invariant
            0 <= k <= items@.len(),
            items_wf(*g, r@),
            forall|k2: int|
                0 <= k2 < k && (#[trigger] items@[k2]).index
                    < g.productions@[items@[k2].production as int].symbols@.len()
                    && g.productions@[items@[k2].production as int].symbols@[items@[k2].index as int]
                    == sym ==> items_contain(
                    r@,
                    Item {
                        production: items@[k2].production,
                        index: (items@[k2].index + 1) as usize,
                        lookahead: items@[k2].lookahead,
                    },
                ),
        decreases items@.len() - k,
    {
        proof {
            assert(item_wf(*g, items@[k as int]));
        }
        let p = items[k].production;
        let d = items[k].index;
        let ghost r_before = r@;
        let mut pushed = false;
        if d < g.productions[p].symbols.len() {
            if symbol_matches(g.productions[p].symbols[d], sym) {
                let moved = Item {
                    production: p,
                    index: d + 1,
                    lookahead: items[k].lookahead.duplicate(),
                };
                let ghost moved_g = moved;
                proof {
                    crate::lookahead::lemma_lookahead_eq_wf(
                        moved.lookahead,
                        items@[k as int].lookahead,
                        spec_n_tokens(*g),
                    );
                }
                r.push(moved);
                pushed = true;
                proof {
                    crate::state::lemma_contains_extend(r_before, moved_g);
                    assert(r@[r@.len() - 1] == moved_g);
                    assert(spec_item_eq(
                        moved_g,
                        Item {
                            production: items@[k as int].production,
                            index: (items@[k as int].index + 1) as usize,
                            lookahead: items@[k as int].lookahead,
                        },
                    ));
                    assert(items_contain(
                        r@,
                        Item {
                            production: items@[k as int].production,
                            index: (items@[k as int].index + 1) as usize,
                            lookahead: items@[k as int].lookahead,
                        },
                    ));
                }
            }
        }
        proof {
            if !pushed {
                assert(r@ == r_before);
            }
        }
        k = k + 1;
    }
    r
}

/// The index of the state holding exactly `items`, allocating the next
/// sequential index for a fresh state when none matches. Earlier states are
/// never changed.
#[verifier::loop_isolation(false)]
fn find_or_add_state(g: &Grammar, states: &mut Vec<State>, items: Vec<Item>) -> (target: usize)
    requires
        grammar_wf(*g),
        states_wf(*g, old(states)@),
        states_closed(*g, old(states)@),
        items_wf(*g, items@),
        items_sorted(items@),
        expansion_closed(*g, items@),
    ensures
        states_wf(*g, final(states)@),
        states_closed(*g, final(states)@),
        old(states)@.len() <= final(states)@.len() <= old(states)@.len() + 1,
        target < final(states)@.len(),
        forall|k: int| 0 <= k < old(states)@.len() ==> final(states)@[k] == old(states)@[k],
        crate::state::spec_items_eq(final(states)@[target as int].items.vec@, items@),
{
    let mut k: usize = 0;
    while k < states.len()
        invariant
            0 <= k <= states@.len(),
            states@ == old(states)@,
        decreases states@.len() - k,
    {
        if crate::state::items_eq_exec(&states[k].items.vec, &items) {
            return k;
        }
        k = k + 1;
    }
    proof {
        assert(crate::state::spec_items_eq(items@, items@)) by {
            assert(forall|m: int|
                0 <= m < items@.len() ==> spec_item_eq(#[trigger] items@[m], items@[m]));
        }
    }
    let idx = states.len();
    let fresh = State {
        index: idx,
        items: Items { vec: items },
        shifts: Vec::new(),
        gotos: Vec::new(),
        reductions: Vec::new(),
    };
    states.push(fresh);
    proof {
        assert forall|i: int| 0 <= i < states@.len() implies (#[trigger] states@[i]).index == i
            && state_wf(*g, states@[i], states@.len()) by {
            if i < states@.len() - 1 {
                assert(state_wf(*g, old(states)@[i], old(states)@.len()));
            }
        }
        assert forall|i: int| 0 <= i < states@.len() implies expansion_closed(
            *g,
            (#[trigger] states@[i]).items.vec@,
        ) by {
            if i < states@.len() - 1 {
                assert(expansion_closed(*g, old(states)@[i].items.vec@));
            }
        }
    }
    idx
}

/// Builds the canonical collection for `g` — LR(1) when `lr1` is set, LR(0)
/// otherwise — and detects every action collision. Returns the complete
/// automaton when no collision exists; otherwise the partial automaton
/// together with the full conflict list, which is then never empty.
///
/// State `0` is the closure of the start item; every further state is
/// allocated in discovery order, and a state is reused whenever its item
/// set is structurally identical to an existing one.
#[verifier::loop_isolation(false)]
#[verifier::rlimit(100)]
pub fn build_states(g: &Grammar, lr1: bool) -> (r: Lr1Result)
    requires
        grammar_wf(*g),
    ensures
        crate::state::result_wf(*g, r),
        r matches Ok(states) ==> states@.len() >= 1 && states_conflict_free(states@)
            && has_start_item(*g, states@[0]) && states_closed(*g, states@) && states_reduced(
            *g,
            states@,
        ) && states_transitioned(*g, states@) && states_goto_kernels(*g, states@),
        r matches Err(e) ==> e.conflicts@.len() > 0 && !states_conflict_free(e.states@)
            && conflicts_genuine(*g, e.states@, e.conflicts@) && e.states@.len() >= 1
            && has_start_item(*g, e.states@[0]) && states_closed(*g, e.states@) && states_reduced(
            *g,
            e.states@,
        ) && states_transitioned(*g, e.states@) && states_goto_kernels(*g, e.states@),
{
    let fs = compute_first(g);
    let eof = g.terminals.len();
    let start_la: Lookahead = if lr1 {
        let mut tokens: Vec<usize> = Vec::new();
        tokens.push(eof);
        Lookahead::TokenSet(TokenSet { tokens })
    } else {
        Lookahead::Nil
    };
    let start_item = Item { production: g.start_production, index: 0, lookahead: start_la };
    let mut kernel: Vec<Item> = Vec::new();
    kernel.push(start_item);
    proof {
        assert(items_wf(*g, kernel@));
    }
    let ghost start_ghost = kernel@[0];
    let initial_items = closure(g, &fs, &kernel, lr1);
    proof {
        assert(spec_item_eq(kernel@[0], start_ghost));
        assert(items_contain(kernel@, start_ghost));
        assert(items_contain(initial_items@, start_ghost));
    }
    let mut states: Vec<State> = Vec::new();
    states.push(
        State {
            index: 0,
            items: Items { vec: initial_items },
            shifts: Vec::new(),
            gotos: Vec::new(),
            reductions: Vec::new(),
        },
    );
    proof {
        assert(states_wf(*g, states@));
        assert(states_closed(*g, states@));
        let k = choose|k: int|
            0 <= k < states@[0].items.vec@.len() && spec_item_eq(
                states@[0].items.vec@[k],
                start_ghost,
            );
        assert(states@[0].items.vec@[k].production == g.start_production);
        assert(states@[0].items.vec@[k].index == 0);
        assert(has_start_item(*g, states@[0]));
    }
    let mut i: usize = 0;
    while i < states.len()
        invariant
            grammar_wf(*g),
            first_sets_wf(*g, fs),
            states_wf(*g, states@),
            states_closed(*g, states@),
            states@.len() >= 1,
            has_start_item(*g, states@[0]),
            forall|m: int|
                0 <= m < i && m < states@.len() ==> reductions_complete(*g, #[trigger] states@[m]),
            forall|m: int|
                0 <= m < i && m < states@.len() ==> transitions_complete(
                    *g,
                    #[trigger] states@[m],
                ),
            forall|m: int, e: int|
                #![trigger states@[m].shifts@[e]]
                0 <= m < i && m < states@.len() && 0 <= e < states@[m].shifts@.len()
                    ==> goto_kernel_in(
                    *g,
                    states@[m].items.vec@,
                    Symbol::Terminal(states@[m].shifts@[e].0),
                    states@[states@[m].shifts@[e].1 as int].items.vec@,
                ),
            forall|m: int, e: int|
                #![trigger states@[m].gotos@[e]]
                0 <= m < i && m < states@.len() && 0 <= e < states@[m].gotos@.len()
                    ==> goto_kernel_in(
                    *g,
                    states@[m].items.vec@,
                    Symbol::Nonterminal(states@[m].gotos@[e].0),
                    states@[states@[m].gotos@[e].1 as int].items.vec@,
                ),
        decreases usize::MAX - i,
    {
        // The symbols with the dot immediately before them, terminals and
        // nonterminals separately, in ascending index order.
        let mut term_syms = TokenSet { tokens: Vec::new() };
        let mut nt_syms = TokenSet { tokens: Vec::new() };
        let mut k: usize = 0;
        while k < states[i].items.vec.len()
            invariant
                i < states@.len(),
                0 <= k <= states@[i as int].items.vec@.len(),
                tokenset_wf(term_syms, g.terminals@.len() as nat),
                tokenset_wf(nt_syms, g.nonterminals@.len() as nat),
                forall|m: int|
                    #![trigger states@[i as int].items.vec@[m]]
                    0 <= m < k && states@[i as int].items.vec@[m].index
                        < g.productions@[states@[i as int].items.vec@[m].production as int].symbols@.len()
                        ==> match g.productions@[states@[i as int].items.vec@[m].production as int].symbols@[states@[i as int].items.vec@[m].index as int] {
                        Symbol::Terminal(t) => term_syms.tokens@.contains(t),
                        Symbol::Nonterminal(n) => nt_syms.tokens@.contains(n),
                    },
            decreases states@[i as int].items.vec@.len() - k,
        {
            proof {
                assert(item_wf(*g, states@[i as int].items.vec@[k as int]));
            }
            let p = states[i].items.vec[k].production;
            let d = states[i].items.vec[k].index;
            proof {
                assert(production_wf(
                    g.productions@[p as int],
                    g.terminals@.len(),
                    g.nonterminals@.len(),
                ));
            }
            if d < g.productions[p].symbols.len() {
                match g.productions[p].symbols[d] {
                    Symbol::Terminal(t) => {
                        let ghost before = term_syms;
                        term_syms.insert(t);
                        proof {
                            lemma_tokenset_members_bounded(before, g.terminals@.len() as nat);
                            lemma_tokenset_wf_from_members(term_syms, g.terminals@.len() as nat);
                        }
                    },
                    Symbol::Nonterminal(n) => {
                        let ghost before = nt_syms;
                        nt_syms.insert(n);
                        proof {
                            lemma_tokenset_members_bounded(before, g.nonterminals@.len() as nat);
                            lemma_tokenset_wf_from_members(nt_syms, g.nonterminals@.len() as nat);
                        }
                    },
                }
            }
            k = k + 1;
        }
        let ghost items_i = states@[i as int].items.vec@;
        proof {
            assert(forall|m: int|
                #![trigger items_i[m]]
                0 <= m < items_i.len() && items_i[m].index
                    < g.productions@[items_i[m].production as int].symbols@.len()
                    ==> match g.productions@[items_i[m].production as int].symbols@[items_i[m].index as int] {
                    Symbol::Terminal(t) => term_syms.tokens@.contains(t),
                    Symbol::Nonterminal(n) => nt_syms.tokens@.contains(n),
                });
        }
        // Shift transitions, in ascending terminal order.
        let mut shifts: Vec<(usize, usize)> = Vec::new();
        let mut j: usize = 0;
        while j < term_syms.tokens.len()
            invariant
                grammar_wf(*g),
                first_sets_wf(*g, fs),
                states_wf(*g, states@),
                states@.len() >= 1,
                i < states@.len(),
                tokenset_wf(term_syms, g.terminals@.len() as nat),
                0 <= j <= term_syms.tokens@.len(),
                shifts@.len() == j,
                forall|m: int| 0 <= m < j ==> (#[trigger] shifts@[m]).0 == term_syms.tokens@[m],
                forall|m: int| 0 <= m < j ==> (#[trigger] shifts@[m]).1 < states@.len(),
                has_start_item(*g, states@[0]),
                states_closed(*g, states@),
                forall|m: int|
                    0 <= m < i && m < states@.len() ==> reductions_complete(
                        *g,
                        #[trigger] states@[m],
                    ),
                forall|m: int|
                    0 <= m < i && m < states@.len() ==> transitions_complete(
                        *g,
                        #[trigger] states@[m],
                    ),
                forall|m: int, e: int|
                    #![trigger states@[m].shifts@[e]]
                    0 <= m < i && m < states@.len() && 0 <= e < states@[m].shifts@.len()
                        ==> goto_kernel_in(
                        *g,
                        states@[m].items.vec@,
                        Symbol::Terminal(states@[m].shifts@[e].0),
                        states@[states@[m].shifts@[e].1 as int].items.vec@,
                    ),
                forall|m: int, e: int|
                    #![trigger states@[m].gotos@[e]]
                    0 <= m < i && m < states@.len() && 0 <= e < states@[m].gotos@.len()
                        ==> goto_kernel_in(
                        *g,
                        states@[m].items.vec@,
                        Symbol::Nonterminal(states@[m].gotos@[e].0),
                        states@[states@[m].gotos@[e].1 as int].items.vec@,
                    ),
                forall|m: int|
                    0 <= m < j ==> goto_kernel_in(
                        *g,
                        items_i,
                        Symbol::Terminal((#[trigger] shifts@[m]).0),
                        states@[shifts@[m].1 as int].items.vec@,
                    ),
                states@[i as int].items.vec@ == items_i,
            decreases term_syms.tokens@.len() - j,
        {
            let t = term_syms.tokens[j];
            let kernel2 = advance_items(g, &states[i].items.vec, Symbol::Terminal(t));
            let target_items = closure(g, &fs, &kernel2, lr1);
            let ghost n_before = states@.len();
            let ghost states_pre = states@;
            let target = find_or_add_state(g, &mut states, target_items);
            shifts.push((t, target));
            proof {
                assert forall|m: int| 0 <= m < j + 1 implies (#[trigger] shifts@[m]).1
                    < states@.len() by {
                    if m < j {
                        assert(shifts@[m].1 < n_before);
                    }
                }
                lemma_edge_kernel(
                    *g,
                    items_i,
                    Symbol::Terminal(t),
                    kernel2@,
                    target_items@,
                    states@[target as int].items.vec@,
                );
                assert forall|m: int|
                    0 <= m < j + 1 implies goto_kernel_in(
                    *g,
                    items_i,
                    Symbol::Terminal((#[trigger] shifts@[m]).0),
                    states@[shifts@[m].1 as int].items.vec@,
                ) by {
                    if m < j {
                        assert(shifts@[m].1 < n_before);
                        assert(states@[shifts@[m].1 as int] == states_pre[shifts@[m].1 as int]);
                    }
                }
                assert forall|m: int, e: int|
                    #![trigger states@[m].shifts@[e]]
                    0 <= m < i && m < states@.len() && 0 <= e < states@[m].shifts@.len()
                        implies goto_kernel_in(
                    *g,
                    states@[m].items.vec@,
                    Symbol::Terminal(states@[m].shifts@[e].0),
                    states@[states@[m].shifts@[e].1 as int].items.vec@,
                ) by {
                    assert(states@[m] == states_pre[m]);
                    assert(state_wf(*g, states_pre[m], states_pre.len()));
                    let tgt = states_pre[m].shifts@[e].1 as int;
                    assert(tgt < states_pre.len());
                    assert(states@[tgt] == states_pre[tgt]);
                    assert(goto_kernel_in(
                        *g,
                        states_pre[m].items.vec@,
                        Symbol::Terminal(states_pre[m].shifts@[e].0),
                        states_pre[states_pre[m].shifts@[e].1 as int].items.vec@,
                    ));
                }
                assert forall|m: int, e: int|
                    #![trigger states@[m].gotos@[e]]
                    0 <= m < i && m < states@.len() && 0 <= e < states@[m].gotos@.len()
                        implies goto_kernel_in(
                    *g,
                    states@[m].items.vec@,
                    Symbol::Nonterminal(states@[m].gotos@[e].0),
                    states@[states@[m].gotos@[e].1 as int].items.vec@,
                ) by {
                    assert(states@[m] == states_pre[m]);
                    assert(state_wf(*g, states_pre[m], states_pre.len()));
                    let tgt = states_pre[m].gotos@[e].1 as int;
                    assert(tgt < states_pre.len());
                    assert(states@[tgt] == states_pre[tgt]);
                    assert(goto_kernel_in(
                        *g,
                        states_pre[m].items.vec@,
                        Symbol::Nonterminal(states_pre[m].gotos@[e].0),
                        states_pre[states_pre[m].gotos@[e].1 as int].items.vec@,
                    ));
                }
            }
            j = j + 1;
        }
        // Goto transitions, in ascending nonterminal order.
        let mut gotos: Vec<(usize, usize)> = Vec::new();
        let mut j2: usize = 0;
        while j2 < nt_syms.tokens.len()
            invariant
                grammar_wf(*g),
                first_sets_wf(*g, fs),
                states_wf(*g, states@),
                states@.len() >= 1,
                i < states@.len(),
                tokenset_wf(nt_syms, g.nonterminals@.len() as nat),
                tokenset_wf(term_syms, g.terminals@.len() as nat),
                0 <= j2 <= nt_syms.tokens@.len(),
                gotos@.len() == j2,
                forall|m: int| 0 <= m < j2 ==> (#[trigger] gotos@[m]).0 == nt_syms.tokens@[m],
                forall|m: int| 0 <= m < j2 ==> (#[trigger] gotos@[m]).1 < states@.len(),
                has_start_item(*g, states@[0]),
                states_closed(*g, states@),
                forall|m: int|
                    0 <= m < i && m < states@.len() ==> reductions_complete(
                        *g,
                        #[trigger] states@[m],
                    ),
                forall|m: int|
                    0 <= m < i && m < states@.len() ==> transitions_complete(
                        *g,
                        #[trigger] states@[m],
                    ),
                states@[i as int].items.vec@ == items_i,
                forall|m: int| 0 <= m < shifts@.len() ==> (#[trigger] shifts@[m]).0
                    < g.terminals@.len(),
                forall|m: int| 0 <= m < shifts@.len() ==> (#[trigger] shifts@[m]).1
                    < states@.len(),
                crate::state::pairs_sorted(shifts@),
                forall|m: int, e: int|
                    #![trigger states@[m].shifts@[e]]
                    0 <= m < i && m < states@.len() && 0 <= e < states@[m].shifts@.len()
                        ==> goto_kernel_in(
                        *g,
                        states@[m].items.vec@,
                        Symbol::Terminal(states@[m].shifts@[e].0),
                        states@[states@[m].shifts@[e].1 as int].items.vec@,
                    ),
                forall|m: int, e: int|
                    #![trigger states@[m].gotos@[e]]
                    0 <= m < i && m < states@.len() && 0 <= e < states@[m].gotos@.len()
                        ==> goto_kernel_in(
                        *g,
                        states@[m].items.vec@,
                        Symbol::Nonterminal(states@[m].gotos@[e].0),
                        states@[states@[m].gotos@[e].1 as int].items.vec@,
                    ),
                forall|m: int|
                    0 <= m < shifts@.len() ==> goto_kernel_in(
                        *g,
                        items_i,
                        Symbol::Terminal((#[trigger] shifts@[m]).0),
                        states@[shifts@[m].1 as int].items.vec@,
                    ),
                forall|m: int|
                    0 <= m < j2 ==> goto_kernel_in(
                        *g,
                        items_i,
                        Symbol::Nonterminal((#[trigger] gotos@[m]).0),
                        states@[gotos@[m].1 as int].items.vec@,
                    ),
            decreases nt_syms.tokens@.len() - j2,
        {
            let n = nt_syms.tokens[j2];
            let kernel2 = advance_items(g, &states[i].items.vec, Symbol::Nonterminal(n));
            let target_items = closure(g, &fs, &kernel2, lr1);
            let ghost n_before = states@.len();
            let ghost states_pre = states@;
            let target = find_or_add_state(g, &mut states, target_items);
            gotos.push((n, target));
            proof {
                assert forall|m: int| 0 <= m < j2 + 1 implies (#[trigger] gotos@[m]).1
                    < states@.len() by {
                    if m < j2 {
                        assert(gotos@[m].1 < n_before);
                    }
                }
                lemma_edge_kernel(
                    *g,
                    items_i,
                    Symbol::Nonterminal(n),
                    kernel2@,
                    target_items@,
                    states@[target as int].items.vec@,
                );
                assert forall|m: int|
                    0 <= m < j2 + 1 implies goto_kernel_in(
                    *g,
                    items_i,
                    Symbol::Nonterminal((#[trigger] gotos@[m]).0),
                    states@[gotos@[m].1 as int].items.vec@,
                ) by {
                    if m < j2 {
                        assert(gotos@[m].1 < n_before);
                        assert(states@[gotos@[m].1 as int] == states_pre[gotos@[m].1 as int]);
                    }
                }
                assert forall|m: int|
                    0 <= m < shifts@.len() implies goto_kernel_in(
                    *g,
                    items_i,
                    Symbol::Terminal((#[trigger] shifts@[m]).0),
                    states@[shifts@[m].1 as int].items.vec@,
                ) by {
                    assert(shifts@[m].1 < states_pre.len());
                    assert(states@[shifts@[m].1 as int] == states_pre[shifts@[m].1 as int]);
                }
                assert forall|m: int, e: int|
                    #![trigger states@[m].shifts@[e]]
                    0 <= m < i && m < states@.len() && 0 <= e < states@[m].shifts@.len()
                        implies goto_kernel_in(
                    *g,
                    states@[m].items.vec@,
                    Symbol::Terminal(states@[m].shifts@[e].0),
                    states@[states@[m].shifts@[e].1 as int].items.vec@,
                ) by {
                    assert(states@[m] == states_pre[m]);
                    assert(state_wf(*g, states_pre[m], states_pre.len()));
                    let tgt = states_pre[m].shifts@[e].1 as int;
                    assert(tgt < states_pre.len());
                    assert(states@[tgt] == states_pre[tgt]);
                    assert(goto_kernel_in(
                        *g,
                        states_pre[m].items.vec@,
                        Symbol::Terminal(states_pre[m].shifts@[e].0),
                        states_pre[states_pre[m].shifts@[e].1 as int].items.vec@,
                    ));
                }
                assert forall|m: int, e: int|
                    #![trigger states@[m].gotos@[e]]
                    0 <= m < i && m < states@.len() && 0 <= e < states@[m].gotos@.len()
                        implies goto_kernel_in(
                    *g,
                    states@[m].items.vec@,
                    Symbol::Nonterminal(states@[m].gotos@[e].0),
                    states@[states@[m].gotos@[e].1 as int].items.vec@,
                ) by {
                    assert(states@[m] == states_pre[m]);
                    assert(state_wf(*g, states_pre[m], states_pre.len()));
                    let tgt = states_pre[m].gotos@[e].1 as int;
                    assert(tgt < states_pre.len());
                    assert(states@[tgt] == states_pre[tgt]);
                    assert(goto_kernel_in(
                        *g,
                        states_pre[m].items.vec@,
                        Symbol::Nonterminal(states_pre[m].gotos@[e].0),
                        states_pre[states_pre[m].gotos@[e].1 as int].items.vec@,
                    ));
                }
            }
            j2 = j2 + 1;
        }
        // Reduction entries: one per item with the dot at the end.
        let mut reductions: Vec<(Lookahead, usize)> = Vec::new();
        let mut k2: usize = 0;
        while k2 < states[i].items.vec.len()
            invariant
                i < states@.len(),
                states_wf(*g, states@),
                0 <= k2 <= states@[i as int].items.vec@.len(),
                forall|m: int|
                    0 <= m < reductions@.len() ==> (#[trigger] reductions@[m]).1
                        < g.productions@.len() && lookahead_wf(
                        reductions@[m].0,
                        spec_n_tokens(*g),
                    ),
                forall|k: int|
                    0 <= k < k2 && (#[trigger] states@[i as int].items.vec@[k]).index
                        == g.productions@[states@[i as int].items.vec@[k].production as int].symbols@.len()
                        ==> exists|e: int|
                        0 <= e < reductions@.len() && (#[trigger] reductions@[e]).1
                            == states@[i as int].items.vec@[k].production
                            && crate::lookahead::spec_lookahead_eq(
                            reductions@[e].0,
                            states@[i as int].items.vec@[k].lookahead,
                        ),
            decreases states@[i as int].items.vec@.len() - k2,
        {
            proof {
                assert(item_wf(*g, states@[i as int].items.vec@[k2 as int]));
            }
            let ghost red_before = reductions@;
            let p = states[i].items.vec[k2].production;
            let d = states[i].items.vec[k2].index;
            if d == g.productions[p].symbols.len() {
                let la = states[i].items.vec[k2].lookahead.duplicate();
                proof {
                    crate::lookahead::lemma_lookahead_eq_wf(
                        la,
                        states@[i as int].items.vec@[k2 as int].lookahead,
                        spec_n_tokens(*g),
                    );
                }
                reductions.push((la, p));
            }
            proof {
                assert forall|k: int|
                    0 <= k < k2 + 1 && (#[trigger] states@[i as int].items.vec@[k]).index
                        == g.productions@[states@[i as int].items.vec@[k].production as int].symbols@.len()
                        implies exists|e: int|
                        0 <= e < reductions@.len() && (#[trigger] reductions@[e]).1
                            == states@[i as int].items.vec@[k].production
                            && crate::lookahead::spec_lookahead_eq(
                            reductions@[e].0,
                            states@[i as int].items.vec@[k].lookahead,
                        ) by {
                    if k < k2 {
                        let e = choose|e: int|
                            0 <= e < red_before.len() && (#[trigger] red_before[e]).1
                                == states@[i as int].items.vec@[k].production
                                && crate::lookahead::spec_lookahead_eq(
                                red_before[e].0,
                                states@[i as int].items.vec@[k].lookahead,
                            );
                        assert(reductions@[e] == red_before[e]);
                    } else {
                        let e = reductions@.len() - 1;
                        assert(reductions@[e].1 == states@[i as int].items.vec@[k].production);
                    }
                }
            }
            k2 = k2 + 1;
        }
        // Install the computed tables into state `i`.
        proof {
            assert(crate::state::pairs_sorted(shifts@)) by {
                assert forall|m1: int, m2: int|
                    0 <= m1 < m2 < shifts@.len() implies (#[trigger] shifts@[m1]).0
                    < (#[trigger] shifts@[m2]).0 by {
                    assert(shifts@[m1].0 == term_syms.tokens@[m1]);
                    assert(shifts@[m2].0 == term_syms.tokens@[m2]);
                }
            }
            assert(crate::state::pairs_sorted(gotos@)) by {
                assert forall|m1: int, m2: int|
                    0 <= m1 < m2 < gotos@.len() implies (#[trigger] gotos@[m1]).0
                    < (#[trigger] gotos@[m2]).0 by {
                    assert(gotos@[m1].0 == nt_syms.tokens@[m1]);
                    assert(gotos@[m2].0 == nt_syms.tokens@[m2]);
                }
            }
            assert(forall|m: int|
                0 <= m < shifts@.len() ==> (#[trigger] shifts@[m]).0 < g.terminals@.len());
            assert(forall|m: int|
                0 <= m < gotos@.len() ==> (#[trigger] gotos@[m]).0 < g.nonterminals@.len());
        }
        let ghost states_before = states@;
        let ghost shifts_ghost = shifts@;
        let ghost gotos_ghost = gotos@;
        states[i].shifts = shifts;
        states[i].gotos = gotos;
        states[i].reductions = reductions;
        proof {
            assert forall|m: int| 0 <= m < states@.len() implies (#[trigger] states@[m]).index == m
                && state_wf(*g, states@[m], states@.len()) by {
                if m != i {
                    assert(states@[m] == states_before[m]);
                    assert(state_wf(*g, states_before[m], states_before.len()));
                } else {
                    assert(state_wf(*g, states_before[m], states_before.len()));
                }
            }
            assert forall|m: int| 0 <= m < states@.len() implies expansion_closed(
                *g,
                (#[trigger] states@[m]).items.vec@,
            ) by {
                assert(states@[m].items == states_before[m].items);
                assert(expansion_closed(*g, states_before[m].items.vec@));
            }
            assert forall|m: int|
                0 <= m < i + 1 && m < states@.len() implies reductions_complete(
                *g,
                #[trigger] states@[m],
            ) by {
                if m < i {
                    assert(states@[m] == states_before[m]);
                    assert(reductions_complete(*g, states_before[m]));
                } else {
                    assert(states@[m].items == states_before[m].items);
                }
            }
            assert forall|m: int|
                0 <= m < i + 1 && m < states@.len() implies transitions_complete(
                *g,
                #[trigger] states@[m],
            ) by {
                if m < i {
                    assert(states@[m] == states_before[m]);
                    assert(transitions_complete(*g, states_before[m]));
                } else {
                    assert(states@[m].items.vec@ == items_i);
                    assert(states@[m].shifts@ == shifts_ghost);
                    assert(states@[m].gotos@ == gotos_ghost);
                    assert forall|k: int|
                        #![trigger states@[m].items.vec@[k]]
                        0 <= k < states@[m].items.vec@.len() && states@[m].items.vec@[k].index
                            < g.productions@[states@[m].items.vec@[k].production as int].symbols@.len()
                            implies match g.productions@[states@[m].items.vec@[k].production as int].symbols@[states@[m].items.vec@[k].index as int] {
                            Symbol::Terminal(t) => has_shift(states@[m], t),
                            Symbol::Nonterminal(n) => has_goto(states@[m], n),
                        } by {
                        assert(items_i[k] == states@[m].items.vec@[k]);
                        match g.productions@[items_i[k].production as int].symbols@[items_i[k].index as int] {
                            Symbol::Terminal(t) => {
                                assert(term_syms.tokens@.contains(t));
                                let idx = choose|idx: int|
                                    0 <= idx < term_syms.tokens@.len() && term_syms.tokens@[idx]
                                        == t;
                                assert(shifts_ghost[idx].0 == t);
                                assert(has_shift(states@[m], t));
                            },
                            Symbol::Nonterminal(n) => {
                                assert(nt_syms.tokens@.contains(n));
                                let idx = choose|idx: int|
                                    0 <= idx < nt_syms.tokens@.len() && nt_syms.tokens@[idx] == n;
                                assert(gotos_ghost[idx].0 == n);
                                assert(has_goto(states@[m], n));
                            },
                        }
                    }
                }
            }
            assert(forall|x: int|
                0 <= x < states@.len() ==> (#[trigger] states@[x]).items
                    == states_before[x].items);
            assert forall|m: int, e: int|
                #![trigger states@[m].shifts@[e]]
                0 <= m < i + 1 && m < states@.len() && 0 <= e < states@[m].shifts@.len()
                    implies goto_kernel_in(
                *g,
                states@[m].items.vec@,
                Symbol::Terminal(states@[m].shifts@[e].0),
                states@[states@[m].shifts@[e].1 as int].items.vec@,
            ) by {
                if m < i {
                    assert(states@[m] == states_before[m]);
                    assert(state_wf(*g, states_before[m], states_before.len()));
                    let tgt = states_before[m].shifts@[e].1 as int;
                    assert(goto_kernel_in(
                        *g,
                        states_before[m].items.vec@,
                        Symbol::Terminal(states_before[m].shifts@[e].0),
                        states_before[tgt].items.vec@,
                    ));
                    assert(states@[tgt].items == states_before[tgt].items);
                } else {
                    assert(states@[m].shifts@ == shifts_ghost);
                    assert(states@[m].items.vec@ == items_i);
                    assert(shifts_ghost[e].1 < states_before.len());
                    assert(goto_kernel_in(
                        *g,
                        items_i,
                        Symbol::Terminal(shifts_ghost[e].0),
                        states_before[shifts_ghost[e].1 as int].items.vec@,
                    ));
                    assert(states@[shifts_ghost[e].1 as int].items
                        == states_before[shifts_ghost[e].1 as int].items);
                }
            }
            assert forall|m: int, e: int|
                #![trigger states@[m].gotos@[e]]
                0 <= m < i + 1 && m < states@.len() && 0 <= e < states@[m].gotos@.len()
                    implies goto_kernel_in(
                *g,
                states@[m].items.vec@,
                Symbol::Nonterminal(states@[m].gotos@[e].0),
                states@[states@[m].gotos@[e].1 as int].items.vec@,
            ) by {
                if m < i {
                    assert(states@[m] == states_before[m]);
                    assert(state_wf(*g, states_before[m], states_before.len()));
                    let tgt = states_before[m].gotos@[e].1 as int;
                    assert(goto_kernel_in(
                        *g,
                        states_before[m].items.vec@,
                        Symbol::Nonterminal(states_before[m].gotos@[e].0),
                        states_before[tgt].items.vec@,
                    ));
                    assert(states@[tgt].items == states_before[tgt].items);
                } else {
                    assert(states@[m].gotos@ == gotos_ghost);
                    assert(states@[m].items.vec@ == items_i);
                    assert(gotos_ghost[e].1 < states_before.len());
                    assert(goto_kernel_in(
                        *g,
                        items_i,
                        Symbol::Nonterminal(gotos_ghost[e].0),
                        states_before[gotos_ghost[e].1 as int].items.vec@,
                    ));
                    assert(states@[gotos_ghost[e].1 as int].items
                        == states_before[gotos_ghost[e].1 as int].items);
                }
            }
            assert(states@[0].items == states_before[0].items);
            assert(has_start_item(*g, states@[0])) by {
                let k = choose|k: int|
                    0 <= k < states_before[0].items.vec@.len()
                        && (#[trigger] states_before[0].items.vec@[k]).production
                        == g.start_production && states_before[0].items.vec@[k].index == 0;
                assert(states@[0].items.vec@[k].production == g.start_production);
            }
        }
        i = i + 1;
    }
    proof {
        assert(states_goto_kernels(*g, states@));
    }
    let conflicts = detect_conflicts(g, &states);
    if conflicts.len() == 0 {
        proof {
            crate::state::lemma_targets_in_range(*g, states@);
        }
        Ok(states)
    } else {
        Err(TableConstructionError { states, conflicts })
    }
}

/// One pass over every state's action tables: records one conflict per
/// (reduction, shift terminal) collision and one per colliding pair of
/// reductions of distinct productions. An empty result proves the whole
/// automaton collision-free.
#[verifier::loop_isolation(false)]
#[verifier::rlimit(60)]
pub fn detect_conflicts(g: &Grammar, states: &Vec<State>) -> (r: Vec<Conflict>)
    requires
        grammar_wf(*g),
        states_wf(*g, states@),
    ensures
        conflicts_wf(*g, r@, states@.len()),
        conflicts_genuine(*g, states@, r@),
        r@.len() == 0 ==> states_conflict_free(states@),
        r@.len() > 0 ==> !states_conflict_free(states@),
{
    let mut conflicts: Vec<Conflict> = Vec::new();
    let mut s: usize = 0;
    while s < states.len()
        invariant
            0 <= s <= states@.len(),
            conflicts_wf(*g, conflicts@, states@.len()),
            conflicts_genuine(*g, states@, conflicts@),
            conflicts@.len() == 0 ==> forall|m: int|
                0 <= m < s ==> state_conflict_free(#[trigger] states@[m]),
        decreases states@.len() - s,
    {
        proof {
            assert(state_wf(*g, states@[s as int], states@.len()));
        }
        let n_red = states[s].reductions.len();
        let n_shift = states[s].shifts.len();
        let mut ri: usize = 0;
        while ri < n_red
            invariant
                0 <= ri <= n_red,
                s < states@.len(),
                n_red == states@[s as int].reductions@.len(),
                n_shift == states@[s as int].shifts@.len(),
                conflicts_wf(*g, conflicts@, states@.len()),
                conflicts_genuine(*g, states@, conflicts@),
                conflicts@.len() == 0 ==> forall|m: int|
                    0 <= m < s ==> state_conflict_free(#[trigger] states@[m]),
                conflicts@.len() == 0 ==> forall|m: int|
                    0 <= m < ri ==> reduction_ok(states@[s as int], m),
            decreases n_red - ri,
        {
            let mut si: usize = 0;
            while si < n_shift
                invariant
                    0 <= si <= n_shift,
                    s < states@.len(),
                    ri < n_red,
                    n_red == states@[s as int].reductions@.len(),
                    n_shift == states@[s as int].shifts@.len(),
                    conflicts_wf(*g, conflicts@, states@.len()),
                    conflicts_genuine(*g, states@, conflicts@),
                    conflicts@.len() == 0 ==> forall|m: int|
                        0 <= m < s ==> state_conflict_free(#[trigger] states@[m]),
                    conflicts@.len() == 0 ==> forall|m: int|
                        0 <= m < ri ==> reduction_ok(states@[s as int], m),
                    conflicts@.len() == 0 ==> forall|m: int|
                        0 <= m < si ==> !spec_la_accepts(
                            states@[s as int].reductions@[ri as int].0,
                            (#[trigger] states@[s as int].shifts@[m]).0,
                        ),
                decreases n_shift - si,
            {
                let t = states[s].shifts[si].0;
                let target = states[s].shifts[si].1;
                if states[s].reductions[ri].0.accepts(t) {
                    let la: Lookahead = match &states[s].reductions[ri].0 {
                        Lookahead::Nil => Lookahead::Nil,
                        Lookahead::TokenSet(_) => {
                            let mut tokens: Vec<usize> = Vec::new();
                            tokens.push(t);
                            Lookahead::TokenSet(TokenSet { tokens })
                        },
                    };
                    let c = Conflict {
                        state: s,
                        production: states[s].reductions[ri].1,
                        action: Action::Shift(t, target),
                        lookahead: la,
                    };
                    let ghost before = conflicts@;
                    proof {
                        assert(state_wf(*g, states@[s as int], states@.len()));
                        assert(conflict_wf(*g, c, states@.len()));
                        let st = states@[s as int];
                        assert(st.reductions@[ri as int].1 == c.production && st.shifts@[si as int]
                            == (t, target) && spec_la_accepts(st.reductions@[ri as int].0, t));
                        assert(conflict_genuine(*g, states@, c));
                    }
                    conflicts.push(c);
                    proof {
                        assert forall|i: int|
                            0 <= i < conflicts@.len() implies conflict_genuine(
                            *g,
                            states@,
                            #[trigger] conflicts@[i],
                        ) by {
                            if i < conflicts@.len() - 1 {
                                assert(conflicts@[i] == before[i]);
                            } else {
                                assert(conflicts@[i] == c);
                            }
                        }
                    }
                }
                si = si + 1;
            }
            let mut rj: usize = ri + 1;
            while rj < n_red
                invariant
                    ri < rj <= n_red,
                    s < states@.len(),
                    ri < n_red,
                    n_red == states@[s as int].reductions@.len(),
                    conflicts_wf(*g, conflicts@, states@.len()),
                    conflicts_genuine(*g, states@, conflicts@),
                    conflicts@.len() == 0 ==> forall|m: int|
                        0 <= m < s ==> state_conflict_free(#[trigger] states@[m]),
                    conflicts@.len() == 0 ==> forall|m: int|
                        0 <= m < ri ==> reduction_ok(states@[s as int], m),
                    conflicts@.len() == 0 ==> forall|m: int|
                        0 <= m < states@[s as int].shifts@.len() ==> !spec_la_accepts(
                            states@[s as int].reductions@[ri as int].0,
                            (#[trigger] states@[s as int].shifts@[m]).0,
                        ),
                    conflicts@.len() == 0 ==> forall|m: int|
                        ri < m < rj ==> !((#[trigger] states@[s as int].reductions@[m]).1
                            != states@[s as int].reductions@[ri as int].1 && la_overlap(
                            states@[s as int].reductions@[ri as int].0,
                            states@[s as int].reductions@[m].0,
                        )),
                decreases n_red - rj,
            {
                if states[s].reductions[rj].1 != states[s].reductions[ri].1 {
                    let overlap: Option<Lookahead> = match (
                        &states[s].reductions[ri].0,
                        &states[s].reductions[rj].0,
                    ) {
                        (Lookahead::Nil, _) => Some(Lookahead::Nil),
                        (_, Lookahead::Nil) => Some(Lookahead::Nil),
                        (Lookahead::TokenSet(x), Lookahead::TokenSet(y)) => {
                            proof {
                                assert(state_wf(*g, states@[s as int], states@.len()));
                            }
                            let inter = x.intersection(y);
                            proof {
                                lemma_tokenset_members_bounded(*x, spec_n_tokens(*g));
                                lemma_tokenset_wf_from_members(inter, spec_n_tokens(*g));
                            }
                            if inter.len() > 0 {
                                Some(Lookahead::TokenSet(inter))
                            } else {
                                proof {
                                    assert(!inter.tokens@.contains(inter.tokens@[0])
                                        || inter.tokens@.len() > 0);
                                    assert forall|t: usize| !(x.tokens@.contains(t)
                                        && y.tokens@.contains(t)) by {
                                        if x.tokens@.contains(t) && y.tokens@.contains(t) {
                                            assert(inter.tokens@.contains(t));
                                        }
                                    }
                                }
                                None
                            }
                        },
                    };
                    match overlap {
                        Some(la) => {
                            let c = Conflict {
                                state: s,
                                production: states[s].reductions[ri].1,
                                action: Action::Reduce(states[s].reductions[rj].1),
                                lookahead: la,
                            };
                            let ghost before = conflicts@;
                            proof {
                                assert(state_wf(*g, states@[s as int], states@.len()));
                                assert(conflict_wf(*g, c, states@.len()));
                                let st = states@[s as int];
                                let la0 = st.reductions@[ri as int].0;
                                let la1 = st.reductions@[rj as int].0;
                                assert(la_overlap(la0, la1)) by {
                                    match (la0, la1) {
                                        (Lookahead::TokenSet(x0), Lookahead::TokenSet(y0)) => {
                                            match c.lookahead {
                                                Lookahead::TokenSet(ts) => {
                                                    assert(ts.tokens@.len() > 0);
                                                    assert(ts.tokens@.contains(ts.tokens@[0]));
                                                    assert(x0.tokens@.contains(ts.tokens@[0])
                                                        && y0.tokens@.contains(ts.tokens@[0]));
                                                },
                                                Lookahead::Nil => {
                                                    assert(false);
                                                },
                                            }
                                        },
                                        _ => {},
                                    }
                                }
                                assert(st.reductions@[ri as int].1 == c.production);
                                assert(conflict_genuine(*g, states@, c));
                            }
                            conflicts.push(c);
                            proof {
                                assert forall|i: int|
                                    0 <= i < conflicts@.len() implies conflict_genuine(
                                    *g,
                                    states@,
                                    #[trigger] conflicts@[i],
                                ) by {
                                    if i < conflicts@.len() - 1 {
                                        assert(conflicts@[i] == before[i]);
                                    } else {
                                        assert(conflicts@[i] == c);
                                    }
                                }
                            }
                        },
                        None => {},
                    }
                }
                rj = rj + 1;
            }
            proof {
                if conflicts@.len() == 0 {
                    assert(reduction_ok(states@[s as int], ri as int));
                }
            }
            ri = ri + 1;
        }
        proof {
            if conflicts@.len() == 0 {
                assert(state_conflict_free(states@[s as int]));
            }
        }
        s = s + 1;
    }
    proof {
        if conflicts@.len() > 0 {
            assert(conflict_genuine(*g, states@, conflicts@[0]));
            lemma_genuine_conflict_refutes_freedom(*g, states@, conflicts@[0]);
        }
    }
    conflicts
}

} // verus!
