//! Grammar representation: terminals, nonterminals and productions. All
//! cross references are stable integer indices into the arenas owned by
//! `Grammar`, so downstream structures never copy a production.

use vstd::prelude::*;

verus! {

/// A grammar symbol: a terminal or a nonterminal, each named by its index
/// into the owning grammar's arena.
#[derive(Clone, Copy, Debug)]
pub enum Symbol {
    Terminal(usize),
    Nonterminal(usize),
}

/// One production: a nonterminal, the ordered symbols of its right-hand
/// side, and an attached semantic-action identifier (opaque to this crate).
#[derive(Clone, Debug)]
pub struct Production {
    pub nonterminal: usize,
    pub symbols: Vec<Symbol>,
    pub action: usize,
}

/// A grammar: the display names of its terminals and nonterminals, its
/// productions, and the index of the augmented start production. State
/// construction begins from an item for the start production with the dot
/// at position zero.
#[derive(Clone, Debug)]
pub struct Grammar {
    pub terminals: Vec<String>,
    pub nonterminals: Vec<String>,
    pub productions: Vec<Production>,
    pub start_production: usize,
}

/// Lookahead tokens are terminal indices, with one extra index reserved for
/// the end-of-input marker: token `t` is the terminal `t` when
/// `t < terminals.len()`, and end of input when `t == terminals.len()`.
pub open spec fn spec_n_tokens(g: Grammar) -> nat {
    g.terminals@.len() + 1
}

/// The end-of-input lookahead token of `g`.
pub open spec fn spec_eof_token(g: Grammar) -> nat {
    g.terminals@.len()
}

pub open spec fn symbol_wf(s: Symbol, n_terminals: nat, n_nonterminals: nat) -> bool {
    match s {
        Symbol::Terminal(t) => t < n_terminals,
        Symbol::Nonterminal(n) => n < n_nonterminals,
    }
}

pub open spec fn production_wf(p: Production, n_terminals: nat, n_nonterminals: nat) -> bool {
    &&& p.nonterminal < n_nonterminals
    &&& forall|i: int|
        0 <= i < p.symbols@.len() ==> symbol_wf(#[trigger] p.symbols@[i], n_terminals, n_nonterminals)
}

/// Every index stored anywhere in the grammar stays inside its arena.
pub open spec fn grammar_wf(g: Grammar) -> bool {
    &&& forall|i: int|
        0 <= i < g.productions@.len() ==> production_wf(
            #[trigger] g.productions@[i],
            g.terminals@.len(),
            g.nonterminals@.len(),
        )
    &&& g.start_production < g.productions@.len()
}

impl Grammar {
    /// Checks at run time that every stored index is in range, so callers
    /// that assemble a grammar from unchecked input can establish
    /// `grammar_wf` without writing a proof.
    #[verifier::loop_isolation(false)]
    pub fn check_wf(&self) -> (r: bool)
        ensures
            r == grammar_wf(*self),
    {
        if self.start_production >= self.productions.len() {
            return false;
        }
        let n_terminals = self.terminals.len();
        let n_nonterminals = self.nonterminals.len();
        let mut i: usize = 0;
        while i < self.productions.len()
            invariant
                0 <= i <= self.productions@.len(),
                n_terminals == self.terminals@.len(),
                n_nonterminals == self.nonterminals@.len(),
                forall|k: int|
                    0 <= k < i ==> production_wf(
                        #[trigger] self.productions@[k],
                        n_terminals as nat,
                        n_nonterminals as nat,
                    ),
            decreases self.productions@.len() - i,
        {
            let p = &self.productions[i];
            if p.nonterminal >= n_nonterminals {
                return false;
            }
            let mut j: usize = 0;
            while j < p.symbols.len()
                invariant
                    0 <= j <= p.symbols@.len(),
                    n_terminals == self.terminals@.len(),
                    n_nonterminals == self.nonterminals@.len(),
                    forall|k: int|
                        0 <= k < j ==> symbol_wf(
                            #[trigger] p.symbols@[k],
                            n_terminals as nat,
                            n_nonterminals as nat,
                        ),
                decreases p.symbols@.len() - j,
            {
                let ok = match p.symbols[j] {
                    Symbol::Terminal(t) => t < n_terminals,
                    Symbol::Nonterminal(n) => n < n_nonterminals,
                };
                if !ok {
                    return false;
                }
                j = j + 1;
            }
            i = i + 1;
        }
        true
    }
}

} // verus!
