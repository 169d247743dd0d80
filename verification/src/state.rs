//! Items, item sets, states, actions and conflicts: the data model of the
//! LR automaton. States refer to productions and to each other through
//! stable indices; an item set is kept sorted in a canonical order so that
//! structurally identical closures are byte-identical, which is what makes
//! state deduplication by value equality sound.

use vstd::prelude::*;

verus! {

use crate::grammar::Grammar;
use crate::grammar::spec_n_tokens;
use crate::lookahead::Lookahead;
use crate::lookahead::lemma_lookahead_order_total;
use crate::lookahead::lookahead_wf;
use crate::lookahead::spec_lookahead_eq;
use crate::lookahead::spec_lookahead_lt;

/// An item: a production (by index), the dot position `index`
/// (`0..=symbols.len()`), and a lookahead.
#[derive(Clone, Debug)]
pub struct Item {
    pub production: usize,
    pub index: usize,
    pub lookahead: Lookahead,
}

/// An ordered, deduplicated item set.
#[derive(Clone, Debug)]
pub struct Items {
    pub vec: Vec<Item>,
}

/// One state of the automaton: its discovery index, its closed item set,
/// the shift table (terminal index to target state), the goto table
/// (nonterminal index to target state), and its reduction entries
/// (lookahead, production index).
#[derive(Clone, Debug)]
pub struct State {
    pub index: usize,
    pub items: Items,
    pub shifts: Vec<(usize, usize)>,
    pub gotos: Vec<(usize, usize)>,
    pub reductions: Vec<(Lookahead, usize)>,
}

/// The competing action of a conflict: a shift of a terminal to a target
/// state, or a reduction of another production.
#[derive(Clone, Copy, Debug)]
pub enum Action {
    Shift(usize, usize),
    Reduce(usize),
}

/// One discovered collision: the owning state, the production whose
/// reduction collides, the competing action, and the lookahead under which
/// the collision occurs.
#[derive(Clone, Debug)]
pub struct Conflict {
    pub state: usize,
    pub production: usize,
    pub action: Action,
    pub lookahead: Lookahead,
}

/// Construction failure: the partial automaton built so far together with
/// every conflict found, preserved for diagnostics.
#[derive(Clone, Debug)]
pub struct TableConstructionError {
    pub states: Vec<State>,
    pub conflicts: Vec<Conflict>,
}

/// The outcome of table construction: the full automaton, or the partial
/// automaton plus its conflicts.
pub type Lr1Result = Result<Vec<State>, TableConstructionError>;

/// Structural equality of items: equal production, dot position and
/// lookahead.
pub open spec fn spec_item_eq(a: Item, b: Item) -> bool {
    &&& a.production == b.production
    &&& a.index == b.index
    &&& spec_lookahead_eq(a.lookahead, b.lookahead)
}

/// The canonical strict order on items: by production, then dot position,
/// then lookahead.
pub open spec fn spec_item_lt(a: Item, b: Item) -> bool {
    if a.production != b.production {
        a.production < b.production
    } else if a.index != b.index {
        a.index < b.index
    } else {
        spec_lookahead_lt(a.lookahead, b.lookahead)
    }
}

pub proof fn lemma_item_order_total(a: Item, b: Item)
    ensures
        spec_item_lt(a, b) || spec_item_lt(b, a) || spec_item_eq(a, b),
{
    lemma_lookahead_order_total(a.lookahead, b.lookahead);
}

/// Strictly ascending in the canonical order (hence deduplicated).
pub open spec fn items_sorted(s: Seq<Item>) -> bool {
    forall|i: int, j: int| 0 <= i < j < s.len() ==> spec_item_lt(#[trigger] s[i], #[trigger] s[j])
}

/// Membership modulo structural item equality.
pub open spec fn items_contain(s: Seq<Item>, it: Item) -> bool {
    exists|k: int| 0 <= k < s.len() && spec_item_eq(#[trigger] s[k], it)
}

/// Pointwise structural equality of two item sequences.
pub open spec fn spec_items_eq(a: Seq<Item>, b: Seq<Item>) -> bool {
    &&& a.len() == b.len()
    &&& forall|k: int| 0 <= k < a.len() ==> spec_item_eq(#[trigger] a[k], #[trigger] b[k])
}

/// The dot never passes the end of the production, and every index is in
/// range.
pub open spec fn item_wf(g: Grammar, it: Item) -> bool {
    &&& it.production < g.productions@.len()
    &&& it.index <= g.productions@[it.production as int].symbols@.len()
    &&& lookahead_wf(it.lookahead, spec_n_tokens(g))
}

pub open spec fn items_wf(g: Grammar, s: Seq<Item>) -> bool {
    forall|k: int| 0 <= k < s.len() ==> item_wf(g, #[trigger] s[k])
}

/// Strictly ascending keys (hence at most one entry per key).
pub open spec fn pairs_sorted(s: Seq<(usize, usize)>) -> bool {
    forall|i: int, j: int| 0 <= i < j < s.len() ==> (#[trigger] s[i]).0 < (#[trigger] s[j]).0
}

/// A well-formed state of an automaton with `n_states` states over `g`:
/// every stored index is in range, the item set is canonically sorted, and
/// the shift and goto tables have strictly ascending keys.
pub open spec fn state_wf(g: Grammar, st: State, n_states: nat) -> bool {
    &&& items_wf(g, st.items.vec@)
    &&& items_sorted(st.items.vec@)
    &&& pairs_sorted(st.shifts@)
    &&& forall|k: int|
        0 <= k < st.shifts@.len() ==> (#[trigger] st.shifts@[k]).0 < g.terminals@.len()
            && st.shifts@[k].1 < n_states
    &&& pairs_sorted(st.gotos@)
    &&& forall|k: int|
        0 <= k < st.gotos@.len() ==> (#[trigger] st.gotos@[k]).0 < g.nonterminals@.len()
            && st.gotos@[k].1 < n_states
    &&& forall|k: int|
        0 <= k < st.reductions@.len() ==> (#[trigger] st.reductions@[k]).1 < g.productions@.len()
            && lookahead_wf(st.reductions@[k].0, spec_n_tokens(g))
}

/// A well-formed automaton: state `i` records index `i`, and every state is
/// well formed against the whole state list — in particular every shift and
/// goto target is a valid state index.
pub open spec fn states_wf(g: Grammar, states: Seq<State>) -> bool {
    forall|i: int|
        0 <= i < states.len() ==> (#[trigger] states[i]).index == i && state_wf(
            g,
            states[i],
            states.len(),
        )
}

pub open spec fn action_wf(g: Grammar, a: Action, n_states: nat) -> bool {
    match a {
        Action::Shift(t, s) => t < g.terminals@.len() && s < n_states,
        Action::Reduce(p) => p < g.productions@.len(),
    }
}

pub open spec fn conflict_wf(g: Grammar, c: Conflict, n_states: nat) -> bool {
    &&& c.state < n_states
    &&& c.production < g.productions@.len()
    &&& action_wf(g, c.action, n_states)
    &&& lookahead_wf(c.lookahead, spec_n_tokens(g))
}

pub open spec fn conflicts_wf(g: Grammar, cs: Seq<Conflict>, n_states: nat) -> bool {
    forall|i: int| 0 <= i < cs.len() ==> conflict_wf(g, #[trigger] cs[i], n_states)
}

/// A well-formed construction outcome over `g`: the states of either
/// variant form a well-formed automaton, and every conflict refers into it.
pub open spec fn result_wf(g: Grammar, r: Lr1Result) -> bool {
    match r {
        Ok(states) => states_wf(g, states@),
        Err(e) => states_wf(g, e.states@) && conflicts_wf(g, e.conflicts@, e.states@.len()),
    }
}

/// Every `target` state index appearing in any shift or goto table of a
/// well-formed automaton is a valid index into the state list.
pub proof fn lemma_targets_in_range(g: Grammar, states: Seq<State>)
    requires
        states_wf(g, states),
    ensures
        forall|i: int, k: int|
            0 <= i < states.len() && 0 <= k < states[i].shifts@.len() ==> (#[trigger] states[i].shifts@[k]).1 < states.len(),
        forall|i: int, k: int|
            0 <= i < states.len() && 0 <= k < states[i].gotos@.len() ==> (#[trigger] states[i].gotos@[k]).1 < states.len(),
{
    assert forall|i: int, k: int|
        0 <= i < states.len() && 0 <= k < states[i].shifts@.len() implies (#[trigger] states[i].shifts@[k]).1 < states.len() by {
        assert(state_wf(g, states[i], states.len()));
    }
    assert forall|i: int, k: int|
        0 <= i < states.len() && 0 <= k < states[i].gotos@.len() implies (#[trigger] states[i].gotos@[k]).1 < states.len() by {
        assert(state_wf(g, states[i], states.len()));
    }
}

impl Item {
    /// A copy of this item whose fields are structurally equal.
    pub fn duplicate(&self) -> (r: Item)
        ensures
            spec_item_eq(r, *self),
            r.production == self.production,
            r.index == self.index,
            spec_lookahead_eq(r.lookahead, self.lookahead),
    {
        Item {
            production: self.production,
            index: self.index,
            lookahead: self.lookahead.duplicate(),
        }
    }

    /// Structural equality test.
    pub fn item_eq(&self, other: &Item) -> (r: bool)
        ensures
            r == spec_item_eq(*self, *other),
    {
        self.production == other.production && self.index == other.index && self.lookahead.la_eq(
            &other.lookahead,
        )
    }

    /// Canonical-order comparison.
    pub fn item_lt(&self, other: &Item) -> (r: bool)
        ensures
            r == spec_item_lt(*self, *other),
    {
        if self.production != other.production {
            self.production < other.production
        } else if self.index != other.index {
            self.index < other.index
        } else {
            self.lookahead.la_lt(&other.lookahead)
        }
    }
}

/// Whether `items` contains an item structurally equal to `it`.
pub fn items_contain_exec(items: &Vec<Item>, it: &Item) -> (r: bool)
    ensures
        r == items_contain(items@, *it),
{
    let mut i: usize = 0;
    while i < items.len()
        invariant
            0 <= i <= items@.len(),
            forall|k: int| 0 <= k < i ==> !spec_item_eq(#[trigger] items@[k], *it),
        decreases items@.len() - i,
    {
        if items[i].item_eq(it) {
            return true;
        }
        i = i + 1;
    }
    false
}

/// Inserts `it` into `items` at its canonical position; an item already
/// present (structurally) leaves the vector unchanged.
pub fn insert_item_sorted(items: &mut Vec<Item>, it: Item)
    requires
        items_sorted(old(items)@),
    ensures
        items_sorted(final(items)@),
        forall|x: Item|
            items_contain(final(items)@, x) <==> items_contain(old(items)@, x) || spec_item_eq(
                x,
                it,
            ),
        final(items)@.len() <= old(items)@.len() + 1,
        items_contain(final(items)@, it),
        final(items)@ == old(items)@ || exists|pos: int|
            0 <= pos <= old(items)@.len() && final(items)@ == old(items)@.subrange(0, pos)
                + seq![it] + old(items)@.subrange(pos, old(items)@.len() as int),
{
    let ghost orig = items@;
    let mut pos: usize = 0;
    while pos < items.len() && items[pos].item_lt(&it)
        invariant
            items@ == orig,
            0 <= pos <= orig.len(),
            forall|k: int| 0 <= k < pos ==> spec_item_lt(#[trigger] orig[k], it),
        decreases items@.len() - pos,
    {
        pos = pos + 1;
    }
    if pos < items.len() {
        if items[pos].item_eq(&it) {
            proof {
                assert(spec_item_eq(orig[pos as int], it));
                assert(items_contain(orig, it));
                assert(forall|x: Item|
                    spec_item_eq(x, it) ==> items_contain(orig, x)) by {
                    assert forall|x: Item| spec_item_eq(x, it) implies items_contain(orig, x) by {
                        assert(spec_item_eq(orig[pos as int], x));
                    }
                }
            }
            return;
        }
    }
    proof {
        if pos < orig.len() {
            lemma_item_order_total(orig[pos as int], it);
            assert(spec_item_lt(it, orig[pos as int]));
        }
        assert(forall|k: int| pos <= k < orig.len() ==> spec_item_lt(it, #[trigger] orig[k])) by {
            assert forall|k: int| pos <= k < orig.len() implies spec_item_lt(it, #[trigger] orig[k]) by {
                if k > pos {
                    assert(spec_item_lt(orig[pos as int], orig[k]));
                    lemma_item_lt_trans(it, orig[pos as int], orig[k]);
                }
            }
        }
    }
    items.insert(pos, it);
    proof {
        let s = items@;
        assert(forall|k: int| 0 <= k < pos ==> s[k] == orig[k]);
        assert(s[pos as int] == it);
        assert(forall|k: int| pos < k < s.len() ==> s[k] == orig[k - 1]);
        assert(items_sorted(s)) by {
            assert forall|i: int, j: int| 0 <= i < j < s.len() implies spec_item_lt(
                #[trigger] s[i],
                #[trigger] s[j],
            ) by {
                if i < pos && j < pos {
                } else if i < pos && j == pos {
                    assert(spec_item_lt(orig[i], it));
                } else if i == pos && j > pos {
                    assert(spec_item_lt(it, orig[j - 1]));
                } else if i < pos && j > pos {
                    assert(spec_item_lt(orig[i], orig[j - 1]));
                } else if i > pos {
                    assert(spec_item_lt(orig[i - 1], orig[j - 1]));
                }
            }
        }
        assert forall|x: Item|
            items_contain(s, x) <==> items_contain(orig, x) || spec_item_eq(x, it) by {
            if items_contain(orig, x) {
                let k = choose|k: int| 0 <= k < orig.len() && spec_item_eq(orig[k], x);
                if k < pos {
                    assert(spec_item_eq(s[k], x));
                } else {
                    assert(spec_item_eq(s[k + 1], x));
                }
            }
            if spec_item_eq(x, it) {
                assert(spec_item_eq(s[pos as int], x)) by {
                    lemma_item_eq_sym_trans(x, it);
                }
            }
            if items_contain(s, x) {
                let k = choose|k: int| 0 <= k < s.len() && spec_item_eq(s[k], x);
                if k < pos {
                    assert(spec_item_eq(orig[k], x));
                } else if k == pos {
                    assert(spec_item_eq(it, x));
                    lemma_item_eq_sym_trans(it, x);
                } else {
                    assert(spec_item_eq(orig[k - 1], x));
                }
            }
        }
        assert forall|k: int| 0 <= k < s.len() implies items_contain(s, #[trigger] s[k]) by {
            assert(spec_item_eq(s[k], s[k]));
        }
        assert(s =~= orig.subrange(0, pos as int) + seq![it] + orig.subrange(
            pos as int,
            orig.len() as int,
        ));
    }
}

/// Well-formedness of an item depends only on its indices and its
/// lookahead's token sequence, so it carries across structural equality.
pub proof fn lemma_item_eq_wf(g: Grammar, a: Item, b: Item)
    requires
        spec_item_eq(a, b),
        item_wf(g, b),
    ensures
        item_wf(g, a),
{
    crate::lookahead::lemma_lookahead_eq_wf(a.lookahead, b.lookahead, spec_n_tokens(g));
}

/// A canonical insertion keeps every item well formed: the result is the
/// input unchanged, or the input with the inserted item spliced in.
pub proof fn lemma_insert_keeps_items_wf(g: Grammar, before: Seq<Item>, after: Seq<Item>, it: Item)
    requires
        items_wf(g, before),
        item_wf(g, it),
        after == before || exists|pos: int|
            0 <= pos <= before.len() && after == before.subrange(0, pos) + seq![it]
                + before.subrange(pos, before.len() as int),
    ensures
        items_wf(g, after),
{
    if after != before {
        let pos = choose|pos: int|
            0 <= pos <= before.len() && after == before.subrange(0, pos) + seq![it]
                + before.subrange(pos, before.len() as int);
        assert forall|k: int| 0 <= k < after.len() implies item_wf(g, #[trigger] after[k]) by {
            if k < pos {
                assert(after[k] == before[k]);
            } else if k == pos {
                assert(after[k] == it);
            } else {
                assert(after[k] == before[k - 1]);
            }
        }
    }
}

/// Item equality is symmetric: structurally equal items swap.
proof fn lemma_item_eq_sym_trans(a: Item, b: Item)
    requires
        spec_item_eq(a, b),
    ensures
        spec_item_eq(b, a),
{
}

/// Structural item equality is symmetric.
pub proof fn lemma_item_eq_sym(a: Item, b: Item)
    requires
        spec_item_eq(a, b),
    ensures
        spec_item_eq(b, a),
{
}

/// Structural item equality is transitive.
pub proof fn lemma_item_eq_trans(a: Item, b: Item, c: Item)
    requires
        spec_item_eq(a, b),
        spec_item_eq(b, c),
    ensures
        spec_item_eq(a, c),
{
}

/// Appending an item keeps every contained item contained.
pub proof fn lemma_contains_extend(s: Seq<Item>, y: Item)
    ensures
        forall|x: Item| items_contain(s, x) ==> items_contain(s.push(y), x),
{
    assert forall|x: Item| items_contain(s, x) implies items_contain(s.push(y), x) by {
        let k = choose|k: int| 0 <= k < s.len() && spec_item_eq(s[k], x);
        assert(s.push(y)[k] == s[k]);
        assert(spec_item_eq(s.push(y)[k], x));
    }
}

/// The canonical item order is transitive.
pub proof fn lemma_item_lt_trans(a: Item, b: Item, c: Item)
    requires
        spec_item_lt(a, b),
        spec_item_lt(b, c),
    ensures
        spec_item_lt(a, c),
{
    if a.production == b.production && b.production == c.production && a.index == b.index
        && b.index == c.index {
        crate::lookahead::lemma_lookahead_lt_trans(a.lookahead, b.lookahead, c.lookahead);
    }
}

/// Pointwise-equality test of two item vectors.
pub fn items_eq_exec(a: &Vec<Item>, b: &Vec<Item>) -> (r: bool)
    ensures
        r == spec_items_eq(a@, b@),
{
    if a.len() != b.len() {
        return false;
    }
    let mut i: usize = 0;
    while i < a.len()
        invariant
            0 <= i <= a@.len(),
            a@.len() == b@.len(),
            forall|k: int| 0 <= k < i ==> spec_item_eq(#[trigger] a@[k], #[trigger] b@[k]),
        decreases a@.len() - i,
    {
        if !a[i].item_eq(&b[i]) {
            return false;
        }
        i = i + 1;
    }
    true
}

impl Lookahead {
    /// A copy of this lookahead whose value is structurally equal.
    pub fn duplicate(&self) -> (r: Lookahead)
        ensures
            spec_lookahead_eq(r, *self),
            r matches Lookahead::Nil <==> self matches Lookahead::Nil,
    {
        match self {
            Lookahead::Nil => Lookahead::Nil,
            Lookahead::TokenSet(ts) => {
                let mut tokens: Vec<usize> = Vec::new();
                let mut i: usize = 0;
                while i < ts.tokens.len()
                    invariant
                        0 <= i <= ts.tokens@.len(),
                        tokens@ == ts.tokens@.subrange(0, i as int),
                    decreases ts.tokens@.len() - i,
                {
                    tokens.push(ts.tokens[i]);
                    proof {
                        assert(tokens@ =~= ts.tokens@.subrange(0, i + 1));
                    }
                    i = i + 1;
                }
                proof {
                    assert(tokens@ =~= ts.tokens@);
                }
                Lookahead::TokenSet(crate::lookahead::TokenSet { tokens })
            },
        }
    }
}

} // verus!
