//! The report generator: a deterministic, purely textual rendering of an
//! `Lr1Result` for human inspection. The exact text — whitespace and column
//! alignment included — is part of the contract: every write appends
//! precisely the character sequence given by the `spec_*` functions below,
//! so the whole report equals `spec_report` character for character.

use vstd::prelude::*;

verus! {

use vstd::string::StrSliceExecFns;
use vstd::string::StringExecFns;

use crate::grammar::Grammar;
use crate::grammar::Production;
use crate::grammar::Symbol;
use crate::grammar::grammar_wf;
use crate::grammar::production_wf;
use crate::grammar::spec_n_tokens;
use crate::lookahead::Lookahead;
use crate::lookahead::lookahead_wf;
use crate::state::Action;
use crate::state::Conflict;
use crate::state::Items;
use crate::state::Lr1Result;
use crate::state::State;
use crate::state::TableConstructionError;
use crate::state::conflict_wf;
use crate::state::conflicts_wf;
use crate::state::item_wf;
use crate::state::items_wf;
use crate::state::result_wf;
use crate::state::state_wf;
use crate::state::states_wf;
use crate::text::push_dec;
use crate::text::push_padded;
use crate::text::spec_dec;
use crate::text::spec_pad;

// ---------------------------------------------------------------------------
// Specification of the report text
// ---------------------------------------------------------------------------

/// The display text of nonterminal `n`.
pub open spec fn spec_nt_name(g: Grammar, n: int) -> Seq<char> {
    g.nonterminals@[n]@
}

/// The display text of terminal `t`.
pub open spec fn spec_term_name(g: Grammar, t: int) -> Seq<char> {
    g.terminals@[t]@
}

/// The display text of lookahead token `t`: a terminal's text, or `EOF` for
/// the reserved end-of-input index.
pub open spec fn spec_token_text(g: Grammar, t: usize) -> Seq<char> {
    if (t as nat) < crate::grammar::spec_eof_token(g) {
        spec_term_name(g, t as int)
    } else {
        "EOF"@
    }
}

/// The display text of a symbol.
pub open spec fn spec_symbol_text(g: Grammar, s: Symbol) -> Seq<char> {
    match s {
        Symbol::Terminal(t) => spec_term_name(g, t as int),
        Symbol::Nonterminal(n) => spec_nt_name(g, n as int),
    }
}

/// The tokens of a lookahead set, each preceded by one space.
pub open spec fn spec_tokens_text(g: Grammar, toks: Seq<usize>) -> Seq<char>
    decreases toks.len(),
{
    if toks.len() == 0 {
        Seq::empty()
    } else {
        spec_tokens_text(g, toks.drop_last()) + " "@ + spec_token_text(g, toks.last())
    }
}

/// The lookahead rendering: nothing for `Nil` or an empty set, else an
/// indented `lookahead` prefix followed by one space-separated token each.
pub open spec fn spec_lookahead_text(g: Grammar, la: Lookahead) -> Seq<char> {
    match la {
        Lookahead::Nil => Seq::empty(),
        Lookahead::TokenSet(ts) => if ts.tokens@.len() == 0 {
            Seq::empty()
        } else {
            "        lookahead"@ + spec_tokens_text(g, ts.tokens@) + "\n"@
        },
    }
}

/// The symbols `from..to` of production `p`, each preceded by one space.
pub open spec fn spec_symbols_text(g: Grammar, p: Production, from: int, to: int) -> Seq<char>
    decreases to - from,
{
    if from >= to {
        Seq::empty()
    } else {
        spec_symbols_text(g, p, from, to - 1) + " "@ + spec_symbol_text(g, p.symbols@[to - 1])
    }
}

/// One production line: the nonterminal padded to `w`, an arrow, every
/// right-hand-side symbol, and a newline.
pub open spec fn spec_production_text(g: Grammar, p: int, w: nat) -> Seq<char> {
    spec_pad(spec_nt_name(g, g.productions@[p].nonterminal as int), w) + " ->"@ + spec_symbols_text(
        g,
        g.productions@[p],
        0,
        g.productions@[p].symbols@.len() as int,
    ) + "\n"@
}

/// One item line: indentation, the padded nonterminal, the symbols before
/// the dot, a literal dot, the symbols after it, then the lookahead.
pub open spec fn spec_item_line(g: Grammar, it: crate::state::Item, w: nat) -> Seq<char> {
    "    "@ + spec_pad(
        spec_nt_name(g, g.productions@[it.production as int].nonterminal as int),
        w,
    ) + " ->"@ + spec_symbols_text(g, g.productions@[it.production as int], 0, it.index as int)
        + " ."@ + spec_symbols_text(
        g,
        g.productions@[it.production as int],
        it.index as int,
        g.productions@[it.production as int].symbols@.len() as int,
    ) + "\n"@ + spec_lookahead_text(g, it.lookahead)
}

/// The widest nonterminal display length among `items`.
pub open spec fn spec_items_width(g: Grammar, items: Seq<crate::state::Item>) -> nat
    decreases items.len(),
{
    if items.len() == 0 {
        0
    } else {
        let rest = spec_items_width(g, items.drop_last());
        let this = spec_nt_name(
            g,
            g.productions@[items.last().production as int].nonterminal as int,
        ).len();
        if this > rest {
            this
        } else {
            rest
        }
    }
}

/// The items block: a blank line then the item line, for each item.
pub open spec fn spec_items_text(g: Grammar, items: Seq<crate::state::Item>, w: nat) -> Seq<char>
    decreases items.len(),
{
    if items.len() == 0 {
        Seq::empty()
    } else {
        spec_items_text(g, items.drop_last(), w) + "\n"@ + spec_item_line(g, items.last(), w)
    }
}

/// The widest nonterminal display length among reduction entries.
pub open spec fn spec_reductions_width(g: Grammar, rs: Seq<(Lookahead, usize)>) -> nat
    decreases rs.len(),
{
    if rs.len() == 0 {
        0
    } else {
        let rest = spec_reductions_width(g, rs.drop_last());
        let this = spec_nt_name(
            g,
            g.productions@[rs.last().1 as int].nonterminal as int,
        ).len();
        if this > rest {
            this
        } else {
            rest
        }
    }
}

/// One reduction entry: the `reduction` prefix, the production line, then
/// the entry's lookahead.
pub open spec fn spec_reduction_text(g: Grammar, r: (Lookahead, usize), w: nat) -> Seq<char> {
    "    reduction "@ + spec_production_text(g, r.1 as int, w) + spec_lookahead_text(g, r.0)
}

/// The reductions block: a blank line then the entry, for each entry.
pub open spec fn spec_reductions_text(g: Grammar, rs: Seq<(Lookahead, usize)>, w: nat) -> Seq<char>
    decreases rs.len(),
{
    if rs.len() == 0 {
        Seq::empty()
    } else {
        spec_reductions_text(g, rs.drop_last(), w) + "\n"@ + spec_reduction_text(g, rs.last(), w)
    }
}

/// One shift line: the terminal padded to `w`, then the target state.
pub open spec fn spec_shift_line(g: Grammar, e: (usize, usize), w: nat) -> Seq<char> {
    "    "@ + spec_pad(spec_term_name(g, e.0 as int), w) + " shift and goto "@ + spec_dec(
        e.1 as nat,
    ) + "\n"@
}

pub open spec fn spec_shifts_text(g: Grammar, es: Seq<(usize, usize)>, w: nat) -> Seq<char>
    decreases es.len(),
{
    if es.len() == 0 {
        Seq::empty()
    } else {
        spec_shifts_text(g, es.drop_last(), w) + spec_shift_line(g, es.last(), w)
    }
}

/// One goto line: the nonterminal padded to `w`, then the target state.
pub open spec fn spec_goto_line(g: Grammar, e: (usize, usize), w: nat) -> Seq<char> {
    "    "@ + spec_pad(spec_nt_name(g, e.0 as int), w) + " goto "@ + spec_dec(e.1 as nat) + "\n"@
}

pub open spec fn spec_gotos_text(g: Grammar, es: Seq<(usize, usize)>, w: nat) -> Seq<char>
    decreases es.len(),
{
    if es.len() == 0 {
        Seq::empty()
    } else {
        spec_gotos_text(g, es.drop_last(), w) + spec_goto_line(g, es.last(), w)
    }
}

/// The widest label among the keys of the shift table (terminal display
/// lengths) and of the goto table (nonterminal lengths) of `st`.
pub open spec fn spec_shift_keys_width(g: Grammar, es: Seq<(usize, usize)>) -> nat
    decreases es.len(),
{
    if es.len() == 0 {
        0
    } else {
        let rest = spec_shift_keys_width(g, es.drop_last());
        let this = spec_term_name(g, es.last().0 as int).len();
        if this > rest {
            this
        } else {
            rest
        }
    }
}

pub open spec fn spec_goto_keys_width(g: Grammar, es: Seq<(usize, usize)>) -> nat
    decreases es.len(),
{
    if es.len() == 0 {
        0
    } else {
        let rest = spec_goto_keys_width(g, es.drop_last());
        let this = spec_nt_name(g, es.last().0 as int).len();
        if this > rest {
            this
        } else {
            rest
        }
    }
}

pub open spec fn spec_width_for_gotos(g: Grammar, st: State) -> nat {
    let s = spec_shift_keys_width(g, st.shifts@);
    let n = spec_goto_keys_width(g, st.gotos@);
    if s > n {
        s
    } else {
        n
    }
}

/// One conflict block: a blank line, the classified heading, the colliding
/// reduction(s) (and the shift, for a shift/reduce conflict), then the
/// conflict's lookahead.
pub open spec fn spec_conflict_text(g: Grammar, c: Conflict) -> Seq<char> {
    "\n"@ + match c.action {
        Action::Shift(t, target) => {
            let tw = spec_term_name(g, t as int).len();
            let nw = spec_nt_name(g, g.productions@[c.production as int].nonterminal as int).len();
            let w = if tw > nw {
                tw
            } else {
                nw
            };
            "    shift/reduce conflict\n"@ + "        reduction "@ + spec_production_text(
                g,
                c.production as int,
                w,
            ) + "        shift     "@ + spec_pad(spec_term_name(g, t as int), w)
                + "    shift and goto "@ + spec_dec(target as nat) + "\n"@
        },
        Action::Reduce(p2) => {
            let w1 = spec_nt_name(g, g.productions@[c.production as int].nonterminal as int).len();
            let w2 = spec_nt_name(g, g.productions@[p2 as int].nonterminal as int).len();
            let w = if w1 > w2 {
                w1
            } else {
                w2
            };
            "    reduce/reduce conflict\n"@ + "        reduction "@ + spec_production_text(
                g,
                c.production as int,
                w,
            ) + "        reduction "@ + spec_production_text(g, p2 as int, w)
        },
    } + spec_lookahead_text(g, c.lookahead)
}

/// The conflicts of `cs` owned by state `s`, in their original order.
pub open spec fn spec_conflicts_for(cs: Seq<Conflict>, s: usize) -> Seq<Conflict>
    decreases cs.len(),
{
    if cs.len() == 0 {
        Seq::empty()
    } else {
        spec_conflicts_for(cs.drop_last(), s) + if cs.last().state == s {
            seq![cs.last()]
        } else {
            Seq::empty()
        }
    }
}

pub open spec fn spec_conflicts_text(g: Grammar, cs: Seq<Conflict>) -> Seq<char>
    decreases cs.len(),
{
    if cs.len() == 0 {
        Seq::empty()
    } else {
        spec_conflicts_text(g, cs.drop_last()) + spec_conflict_text(g, cs.last())
    }
}

/// One state block, with `cs` the conflicts of the whole result: heading,
/// items, then the reductions, shifts and gotos blocks when non-empty, then
/// one block per conflict owned by this state, then the closing brace.
pub open spec fn spec_state_text(g: Grammar, st: State, cs: Seq<Conflict>) -> Seq<char> {
    let w = spec_width_for_gotos(g, st);
    "State "@ + spec_dec(st.index as nat) + " {\n"@ + spec_items_text(
        g,
        st.items.vec@,
        spec_items_width(g, st.items.vec@),
    ) + (if st.reductions@.len() > 0 {
        "\n"@ + spec_reductions_text(g, st.reductions@, spec_reductions_width(g, st.reductions@))
    } else {
        Seq::empty()
    }) + (if st.shifts@.len() > 0 {
        "\n"@ + spec_shifts_text(g, st.shifts@, w)
    } else {
        Seq::empty()
    }) + (if st.gotos@.len() > 0 {
        "\n"@ + spec_gotos_text(g, st.gotos@, w)
    } else {
        Seq::empty()
    }) + spec_conflicts_text(g, spec_conflicts_for(cs, st.index)) + "}\n"@
}

pub open spec fn spec_section_header(title: Seq<char>) -> Seq<char> {
    "\n"@ + title + "\n"@ + "----------------------------------------\n"@
}

pub open spec fn spec_header() -> Seq<char> {
    "Lalrpop Report File\n"@ + "========================================\n"@
}

/// The state table: its section header, then a blank line and the state
/// block for every state in index order.
pub open spec fn spec_states_text(g: Grammar, states: Seq<State>, cs: Seq<Conflict>) -> Seq<char>
    decreases states.len(),
{
    if states.len() == 0 {
        spec_section_header("State Table"@)
    } else {
        spec_states_text(g, states.drop_last(), cs) + "\n"@ + spec_state_text(g, states.last(), cs)
    }
}

/// How many conflicts of `cs` are shift/reduce (their action is a shift).
pub open spec fn spec_count_sr(cs: Seq<Conflict>) -> nat
    decreases cs.len(),
{
    if cs.len() == 0 {
        0
    } else {
        spec_count_sr(cs.drop_last()) + match cs.last().action {
            Action::Shift(_, _) => 1nat,
            Action::Reduce(_) => 0nat,
        }
    }
}

/// How many conflicts of `cs` are reduce/reduce (their action is a
/// reduction).
pub open spec fn spec_count_rr(cs: Seq<Conflict>) -> nat
    decreases cs.len(),
{
    if cs.len() == 0 {
        0
    } else {
        spec_count_rr(cs.drop_last()) + match cs.last().action {
            Action::Shift(_, _) => 0nat,
            Action::Reduce(_) => 1nat,
        }
    }
}

/// Whether some conflict of `cs` is owned by state `s`.
pub open spec fn spec_has_conflict(cs: Seq<Conflict>, s: usize) -> bool {
    exists|i: int| 0 <= i < cs.len() && (#[trigger] cs[i]).state == s
}

/// The ascending list of state indices below `n` that own a conflict.
pub open spec fn spec_conflict_keys(cs: Seq<Conflict>, n: nat) -> Seq<usize>
    decreases n,
{
    if n == 0 {
        Seq::empty()
    } else {
        spec_conflict_keys(cs, (n - 1) as nat) + if spec_has_conflict(cs, (n - 1) as usize) {
            seq![(n - 1) as usize]
        } else {
            Seq::empty()
        }
    }
}

/// The `States with conflicts:` list: each key preceded by one space.
pub open spec fn spec_keys_text(keys: Seq<usize>) -> Seq<char>
    decreases keys.len(),
{
    if keys.len() == 0 {
        Seq::empty()
    } else {
        spec_keys_text(keys.drop_last()) + " "@ + spec_dec(keys.last() as nat)
    }
}

/// The summary of a failed construction, after the `Failure` and count
/// lines: the per-kind tallies (each only when positive) and the list of
/// states owning conflicts.
pub open spec fn spec_err_summary(g: Grammar, e: TableConstructionError) -> Seq<char> {
    let sr = spec_count_sr(e.conflicts@);
    let rr = spec_count_rr(e.conflicts@);
    (if sr > 0 {
        "    shift/reduce:  "@ + spec_dec(sr) + "\n"@
    } else {
        Seq::empty()
    }) + (if rr > 0 {
        "    reduce/reduce: "@ + spec_dec(rr) + "\n"@
    } else {
        Seq::empty()
    }) + "States with conflicts: "@ + spec_keys_text(
        spec_conflict_keys(e.conflicts@, e.states@.len()),
    ) + "\n"@
}

/// The complete report for `r`: title block, summary section, then the
/// state table; a failed construction additionally reports its conflict
/// tallies, and its conflicts are rendered inside their owning states.
pub open spec fn spec_report(g: Grammar, r: Lr1Result) -> Seq<char> {
    spec_header() + spec_section_header("Summary"@) + "\n"@ + match r {
        Ok(states) => "Constructed "@ + spec_dec(states@.len()) + " states\n"@ + spec_states_text(
            g,
            states@,
            Seq::empty(),
        ),
        Err(e) => "Failure\n"@ + "Constructed "@ + spec_dec(e.states@.len()) + " states\n"@
            + "Has "@ + spec_dec(e.conflicts@.len()) + " conflicts\n"@ + spec_err_summary(g, e)
            + spec_states_text(g, e.states@, e.conflicts@),
    }
}

// ---------------------------------------------------------------------------
// The generator
// ---------------------------------------------------------------------------

/// Accumulates the report text; the caller takes `out` when rendering is
/// done.
pub struct ReportGenerator {
    pub out: String,
}

/// Renders the complete report for `lr1result` over `grammar`.
pub fn generate_report(grammar: &Grammar, lr1result: &Lr1Result) -> (r: String)
    requires
        grammar_wf(*grammar),
        result_wf(*grammar, *lr1result),
    ensures
        r@ == spec_report(*grammar, *lr1result),
{
    let mut generator = ReportGenerator::new();
    generator.report_lr_table_construction(grammar, lr1result);
    generator.out
}

impl ReportGenerator {
    /// A generator with no text yet.
    pub fn new() -> (r: ReportGenerator)
        ensures
            r.out@ == Seq::<char>::empty(),
    {
        ReportGenerator { out: String::new() }
    }

    fn write_header(&mut self)
        ensures
            final(self).out@ == old(self).out@ + spec_header(),
    {
        self.out.append("Lalrpop Report File\n");
        self.out.append("========================================\n");
        proof {
            assert(self.out@ =~= old(self).out@ + spec_header());
        }
    }

    fn write_section_header(&mut self, title: &str)
        ensures
            final(self).out@ == old(self).out@ + spec_section_header(title@),
    {
        self.out.append("\n");
        self.out.append(title);
        self.out.append("\n");
        self.out.append("----------------------------------------\n");
        proof {
            assert(self.out@ =~= old(self).out@ + spec_section_header(title@));
        }
    }

    /// Appends the lookahead rendering of `la`.
    #[verifier::loop_isolation(false)]
    fn write_lookahead(&mut self, g: &Grammar, la: &Lookahead)
        requires
            grammar_wf(*g),
            lookahead_wf(*la, spec_n_tokens(*g)),
        ensures
            final(self).out@ == old(self).out@ + spec_lookahead_text(*g, *la),
    {
        match la {
            Lookahead::Nil => {},
            Lookahead::TokenSet(ts) => {
                if ts.tokens.len() > 0 {
                    self.out.append("        lookahead");
                    let mut i: usize = 0;
                    while i < ts.tokens.len()
                        invariant
                            0 <= i <= ts.tokens@.len(),
                            self.out@ == old(self).out@ + "        lookahead"@ + spec_tokens_text(
                                *g,
                                ts.tokens@.subrange(0, i as int),
                            ),
                        decreases ts.tokens@.len() - i,
                    {
                        self.out.append(" ");
                        let t = ts.tokens[i];
                        if t < g.terminals.len() {
                            self.out.append(g.terminals[t].as_str());
                        } else {
                            self.out.append("EOF");
                        }
                        proof {
                            assert(ts.tokens@.subrange(0, i + 1).drop_last() =~= ts.tokens@.subrange(
                                0,
                                i as int,
                            ));
                            assert(ts.tokens@.subrange(0, i + 1).last() == ts.tokens@[i as int]);
                            assert(self.out@ =~= old(self).out@ + "        lookahead"@
                                + spec_tokens_text(*g, ts.tokens@.subrange(0, i + 1)));
                        }
                        i = i + 1;
                    }
                    self.out.append("\n");
                    proof {
                        assert(ts.tokens@.subrange(0, ts.tokens@.len() as int) =~= ts.tokens@);
                        assert(self.out@ =~= old(self).out@ + spec_lookahead_text(*g, *la));
                    }
                }
            },
        }
    }

    /// Appends the production line for production `p` with the nonterminal
    /// padded to `max_width`.
    #[verifier::loop_isolation(false)]
    fn write_production(&mut self, g: &Grammar, p: usize, max_width: usize)
        requires
            grammar_wf(*g),
            p < g.productions@.len(),
        ensures
            final(self).out@ == old(self).out@ + spec_production_text(*g, p as int, max_width as nat),
    {
        proof {
            assert(production_wf(g.productions@[p as int], g.terminals@.len(), g.nonterminals@.len()));
        }
        push_padded(
            &mut self.out,
            g.nonterminals[g.productions[p].nonterminal].as_str(),
            max_width,
        );
        self.out.append(" ->");
        let ghost base = self.out@;
        let mut i: usize = 0;
        while i < g.productions[p].symbols.len()
            invariant
                0 <= i <= g.productions@[p as int].symbols@.len(),
                self.out@ == base + spec_symbols_text(*g, g.productions@[p as int], 0, i as int),
            decreases g.productions@[p as int].symbols@.len() - i,
        {
            self.out.append(" ");
            match g.productions[p].symbols[i] {
                Symbol::Terminal(t) => {
                    self.out.append(g.terminals[t].as_str());
                },
                Symbol::Nonterminal(n) => {
                    self.out.append(g.nonterminals[n].as_str());
                },
            }
            proof {
                assert(self.out@ =~= base + spec_symbols_text(
                    *g,
                    g.productions@[p as int],
                    0,
                    i + 1,
                ));
            }
            i = i + 1;
        }
        self.out.append("\n");
        proof {
            assert(self.out@ =~= old(self).out@ + spec_production_text(
                *g,
                p as int,
                max_width as nat,
            ));
        }
    }

    /// Appends one item line, the nonterminal padded to `max_width`.
    #[verifier::loop_isolation(false)]
    fn write_item(&mut self, g: &Grammar, item: &crate::state::Item, max_width: usize)
        requires
            grammar_wf(*g),
            item_wf(*g, *item),
        ensures
            final(self).out@ == old(self).out@ + spec_item_line(*g, *item, max_width as nat),
    {
        let p = item.production;
        proof {
            assert(production_wf(g.productions@[p as int], g.terminals@.len(), g.nonterminals@.len()));
        }
        self.out.append("    ");
        push_padded(
            &mut self.out,
            g.nonterminals[g.productions[p].nonterminal].as_str(),
            max_width,
        );
        self.out.append(" ->");
        let ghost base = self.out@;
        let mut i: usize = 0;
        while i < item.index
            invariant
                0 <= i <= item.index,
                self.out@ == base + spec_symbols_text(*g, g.productions@[p as int], 0, i as int),
            decreases item.index - i,
        {
            self.out.append(" ");
            match g.productions[p].symbols[i] {
                Symbol::Terminal(t) => {
                    self.out.append(g.terminals[t].as_str());
                },
                Symbol::Nonterminal(n) => {
                    self.out.append(g.nonterminals[n].as_str());
                },
            }
            proof {
                assert(self.out@ =~= base + spec_symbols_text(
                    *g,
                    g.productions@[p as int],
                    0,
                    i + 1,
                ));
            }
            i = i + 1;
        }
        self.out.append(" .");
        let ghost base2 = self.out@;
        let mut j: usize = item.index;
        while j < g.productions[p].symbols.len()
            invariant
                item.index <= j <= g.productions@[p as int].symbols@.len(),
                self.out@ == base2 + spec_symbols_text(
                    *g,
                    g.productions@[p as int],
                    item.index as int,
                    j as int,
                ),
            decreases g.productions@[p as int].symbols@.len() - j,
        {
            self.out.append(" ");
            match g.productions[p].symbols[j] {
                Symbol::Terminal(t) => {
                    self.out.append(g.terminals[t].as_str());
                },
                Symbol::Nonterminal(n) => {
                    self.out.append(g.nonterminals[n].as_str());
                },
            }
            proof {
                assert(self.out@ =~= base2 + spec_symbols_text(
                    *g,
                    g.productions@[p as int],
                    item.index as int,
                    j + 1,
                ));
            }
            j = j + 1;
        }
        self.out.append("\n");
        self.write_lookahead(g, &item.lookahead);
        proof {
            assert(final(self).out@ =~= old(self).out@ + spec_item_line(
                *g,
                *item,
                max_width as nat,
            ));
        }
    }

    /// Appends the items block: a blank line and one line per item, all
    /// padded to the widest nonterminal among the items.
    #[verifier::loop_isolation(false)]
    fn write_items(&mut self, g: &Grammar, items: &Items)
        requires
            grammar_wf(*g),
            items_wf(*g, items.vec@),
        ensures
            final(self).out@ == old(self).out@ + spec_items_text(
                *g,
                items.vec@,
                spec_items_width(*g, items.vec@),
            ),
    {
        let max_width = items_width_exec(g, &items.vec);
        let mut i: usize = 0;
        while i < items.vec.len()
            invariant
                0 <= i <= items.vec@.len(),
                self.out@ == old(self).out@ + spec_items_text(
                    *g,
                    items.vec@.subrange(0, i as int),
                    max_width as nat,
                ),
            decreases items.vec@.len() - i,
        {
            self.out.append("\n");
            self.write_item(g, &items.vec[i], max_width);
            proof {
                assert(items.vec@.subrange(0, i + 1).drop_last() =~= items.vec@.subrange(
                    0,
                    i as int,
                ));
                assert(items.vec@.subrange(0, i + 1).last() == items.vec@[i as int]);
                assert(self.out@ =~= old(self).out@ + spec_items_text(
                    *g,
                    items.vec@.subrange(0, i + 1),
                    max_width as nat,
                ));
            }
            i = i + 1;
        }
        proof {
            assert(items.vec@.subrange(0, items.vec@.len() as int) =~= items.vec@);
        }
    }

    /// Appends one reduction entry, the nonterminal padded to `max_width`.
    fn write_reduction(&mut self, g: &Grammar, reduction: &(Lookahead, usize), max_width: usize)
        requires
            grammar_wf(*g),
            reduction.1 < g.productions@.len(),
            lookahead_wf(reduction.0, spec_n_tokens(*g)),
        ensures
            final(self).out@ == old(self).out@ + spec_reduction_text(*g, *reduction, max_width as nat),
    {
        self.out.append("    reduction ");
        self.write_production(g, reduction.1, max_width);
        self.write_lookahead(g, &reduction.0);
        proof {
            assert(final(self).out@ =~= old(self).out@ + spec_reduction_text(
                *g,
                *reduction,
                max_width as nat,
            ));
        }
    }

    /// Appends the reductions block: a blank line and one entry each, all
    /// padded to the widest nonterminal among the reductions.
    #[verifier::loop_isolation(false)]
    fn write_reductions(&mut self, g: &Grammar, reductions: &Vec<(Lookahead, usize)>)
        requires
            grammar_wf(*g),
            forall|k: int|
                0 <= k < reductions@.len() ==> (#[trigger] reductions@[k]).1
                    < g.productions@.len() && lookahead_wf(reductions@[k].0, spec_n_tokens(*g)),
        ensures
            final(self).out@ == old(self).out@ + spec_reductions_text(
                *g,
                reductions@,
                spec_reductions_width(*g, reductions@),
            ),
    {
        let max_width = reductions_width_exec(g, reductions);
        let mut i: usize = 0;
        while i < reductions.len()
            invariant
                0 <= i <= reductions@.len(),
                self.out@ == old(self).out@ + spec_reductions_text(
                    *g,
                    reductions@.subrange(0, i as int),
                    max_width as nat,
                ),
            decreases reductions@.len() - i,
        {
            self.out.append("\n");
            self.write_reduction(g, &reductions[i], max_width);
            proof {
                assert(reductions@.subrange(0, i + 1).drop_last() =~= reductions@.subrange(
                    0,
                    i as int,
                ));
                assert(reductions@.subrange(0, i + 1).last() == reductions@[i as int]);
                assert(self.out@ =~= old(self).out@ + spec_reductions_text(
                    *g,
                    reductions@.subrange(0, i + 1),
                    max_width as nat,
                ));
            }
            i = i + 1;
        }
        proof {
            assert(reductions@.subrange(0, reductions@.len() as int) =~= reductions@);
        }
    }

    /// Appends the shifts block: one line per entry, keys padded to
    /// `max_width`.
    #[verifier::loop_isolation(false)]
    fn write_shifts(&mut self, g: &Grammar, shifts: &Vec<(usize, usize)>, max_width: usize)
        requires
            grammar_wf(*g),
            forall|k: int|
                0 <= k < shifts@.len() ==> (#[trigger] shifts@[k]).0 < g.terminals@.len(),
        ensures
            final(self).out@ == old(self).out@ + spec_shifts_text(*g, shifts@, max_width as nat),
    {
        let mut i: usize = 0;
        while i < shifts.len()
            invariant
                0 <= i <= shifts@.len(),
                self.out@ == old(self).out@ + spec_shifts_text(
                    *g,
                    shifts@.subrange(0, i as int),
                    max_width as nat,
                ),
            decreases shifts@.len() - i,
        {
            self.out.append("    ");
            push_padded(&mut self.out, g.terminals[shifts[i].0].as_str(), max_width);
            self.out.append(" shift and goto ");
            push_dec(&mut self.out, shifts[i].1 as u64);
            self.out.append("\n");
            proof {
                assert(shifts@.subrange(0, i + 1).drop_last() =~= shifts@.subrange(0, i as int));
                assert(shifts@.subrange(0, i + 1).last() == shifts@[i as int]);
                assert(self.out@ =~= old(self).out@ + spec_shifts_text(
                    *g,
                    shifts@.subrange(0, i + 1),
                    max_width as nat,
                ));
            }
            i = i + 1;
        }
        proof {
            assert(shifts@.subrange(0, shifts@.len() as int) =~= shifts@);
        }
    }

    /// Appends the gotos block: one line per entry, keys padded to
    /// `max_width`.
    #[verifier::loop_isolation(false)]
    fn write_gotos(&mut self, g: &Grammar, gotos: &Vec<(usize, usize)>, max_width: usize)
        requires
            grammar_wf(*g),
            forall|k: int| 0 <= k < gotos@.len() ==> (#[trigger] gotos@[k]).0 < g.nonterminals@.len(),
        ensures
            final(self).out@ == old(self).out@ + spec_gotos_text(*g, gotos@, max_width as nat),
    {
        let mut i: usize = 0;
        while i < gotos.len()
            invariant
                0 <= i <= gotos@.len(),
                self.out@ == old(self).out@ + spec_gotos_text(
                    *g,
                    gotos@.subrange(0, i as int),
                    max_width as nat,
                ),
            decreases gotos@.len() - i,
        {
            self.out.append("    ");
            push_padded(&mut self.out, g.nonterminals[gotos[i].0].as_str(), max_width);
            self.out.append(" goto ");
            push_dec(&mut self.out, gotos[i].1 as u64);
            self.out.append("\n");
            proof {
                assert(gotos@.subrange(0, i + 1).drop_last() =~= gotos@.subrange(0, i as int));
                assert(gotos@.subrange(0, i + 1).last() == gotos@[i as int]);
                assert(self.out@ =~= old(self).out@ + spec_gotos_text(
                    *g,
                    gotos@.subrange(0, i + 1),
                    max_width as nat,
                ));
            }
            i = i + 1;
        }
        proof {
            assert(gotos@.subrange(0, gotos@.len() as int) =~= gotos@);
        }
    }

    /// Appends one conflict block.
    #[verifier::rlimit(100)]
    fn write_conflict(&mut self, g: &Grammar, conflict: &Conflict)
        requires
            grammar_wf(*g),
            conflict.production < g.productions@.len(),
            crate::state::action_wf(*g, conflict.action, usize::MAX as nat),
            lookahead_wf(conflict.lookahead, spec_n_tokens(*g)),
        ensures
            final(self).out@ == old(self).out@ + spec_conflict_text(*g, *conflict),
    {
        proof {
            assert(production_wf(
                g.productions@[conflict.production as int],
                g.terminals@.len(),
                g.nonterminals@.len(),
            ));
        }
        self.out.append("\n");
        match conflict.action {
            Action::Shift(terminal, target) => {
                let tw = g.terminals[terminal].as_str().unicode_len();
                let nw = g.nonterminals[g.productions[conflict.production].nonterminal]
                    .as_str()
                    .unicode_len();
                let max_width = if tw > nw {
                    tw
                } else {
                    nw
                };
                let ghost w = max_width as nat;
                self.out.append("    shift/reduce conflict\n");
                let ghost s1 = "    shift/reduce conflict\n"@;
                proof {
                    crate::text::lemma_app_assoc(old(self).out@, "\n"@, s1);
                    assert(self.out@ == old(self).out@ + ("\n"@ + s1));
                }
                self.out.append("        reduction ");
                let ghost s2 = s1 + "        reduction "@;
                proof {
                    crate::text::lemma_app_assoc(old(self).out@, "\n"@ + s1, "        reduction "@);
                    crate::text::lemma_app_assoc("\n"@, s1, "        reduction "@);
                    assert(self.out@ == old(self).out@ + ("\n"@ + s2));
                }
                self.write_production(g, conflict.production, max_width);
                let ghost s3 = s2 + spec_production_text(*g, conflict.production as int, w);
                proof {
                    let t = spec_production_text(*g, conflict.production as int, w);
                    crate::text::lemma_app_assoc(old(self).out@, "\n"@ + s2, t);
                    crate::text::lemma_app_assoc("\n"@, s2, t);
                    assert(self.out@ == old(self).out@ + ("\n"@ + s3));
                }
                self.out.append("        shift     ");
                let ghost s4 = s3 + "        shift     "@;
                proof {
                    crate::text::lemma_app_assoc(old(self).out@, "\n"@ + s3, "        shift     "@);
                    crate::text::lemma_app_assoc("\n"@, s3, "        shift     "@);
                    assert(self.out@ == old(self).out@ + ("\n"@ + s4));
                }
                push_padded(&mut self.out, g.terminals[terminal].as_str(), max_width);
                let ghost s5 = s4 + spec_pad(spec_term_name(*g, terminal as int), w);
                proof {
                    let t = spec_pad(spec_term_name(*g, terminal as int), w);
                    crate::text::lemma_app_assoc(old(self).out@, "\n"@ + s4, t);
                    crate::text::lemma_app_assoc("\n"@, s4, t);
                    assert(self.out@ == old(self).out@ + ("\n"@ + s5));
                }
                self.out.append("    shift and goto ");
                let ghost s6 = s5 + "    shift and goto "@;
                proof {
                    crate::text::lemma_app_assoc(
                        old(self).out@,
                        "\n"@ + s5,
                        "    shift and goto "@,
                    );
                    crate::text::lemma_app_assoc("\n"@, s5, "    shift and goto "@);
                    assert(self.out@ == old(self).out@ + ("\n"@ + s6));
                }
                push_dec(&mut self.out, target as u64);
                let ghost s7 = s6 + spec_dec(target as nat);
                proof {
                    crate::text::lemma_app_assoc(old(self).out@, "\n"@ + s6, spec_dec(target as nat));
                    crate::text::lemma_app_assoc("\n"@, s6, spec_dec(target as nat));
                    assert(self.out@ == old(self).out@ + ("\n"@ + s7));
                }
                self.out.append("\n");
                let ghost s8 = s7 + "\n"@;
                proof {
                    crate::text::lemma_app_assoc(old(self).out@, "\n"@ + s7, "\n"@);
                    crate::text::lemma_app_assoc("\n"@, s7, "\n"@);
                    assert(self.out@ == old(self).out@ + ("\n"@ + s8));
                }
                self.write_lookahead(g, &conflict.lookahead);
                proof {
                    let la = spec_lookahead_text(*g, conflict.lookahead);
                    crate::text::lemma_app_assoc(old(self).out@, "\n"@ + s8, la);
                    assert(self.out@ == old(self).out@ + (("\n"@ + s8) + la));
                    assert(("\n"@ + s8) + la == spec_conflict_text(*g, *conflict));
                }
            },
            Action::Reduce(other_production) => {
                proof {
                    assert(production_wf(
                        g.productions@[other_production as int],
                        g.terminals@.len(),
                        g.nonterminals@.len(),
                    ));
                }
                let w1 = g.nonterminals[g.productions[conflict.production].nonterminal]
                    .as_str()
                    .unicode_len();
                let w2 = g.nonterminals[g.productions[other_production].nonterminal]
                    .as_str()
                    .unicode_len();
                let max_width = if w1 > w2 {
                    w1
                } else {
                    w2
                };
                let ghost w = max_width as nat;
                self.out.append("    reduce/reduce conflict\n");
                let ghost s1 = "    reduce/reduce conflict\n"@;
                proof {
                    crate::text::lemma_app_assoc(old(self).out@, "\n"@, s1);
                    assert(self.out@ == old(self).out@ + ("\n"@ + s1));
                }
                self.out.append("        reduction ");
                let ghost s2 = s1 + "        reduction "@;
                proof {
                    crate::text::lemma_app_assoc(old(self).out@, "\n"@ + s1, "        reduction "@);
                    crate::text::lemma_app_assoc("\n"@, s1, "        reduction "@);
                    assert(self.out@ == old(self).out@ + ("\n"@ + s2));
                }
                self.write_production(g, conflict.production, max_width);
                let ghost s3 = s2 + spec_production_text(*g, conflict.production as int, w);
                proof {
                    let t = spec_production_text(*g, conflict.production as int, w);
                    crate::text::lemma_app_assoc(old(self).out@, "\n"@ + s2, t);
                    crate::text::lemma_app_assoc("\n"@, s2, t);
                    assert(self.out@ == old(self).out@ + ("\n"@ + s3));
                }
                self.out.append("        reduction ");
                let ghost s4 = s3 + "        reduction "@;
                proof {
                    crate::text::lemma_app_assoc(old(self).out@, "\n"@ + s3, "        reduction "@);
                    crate::text::lemma_app_assoc("\n"@, s3, "        reduction "@);
                    assert(self.out@ == old(self).out@ + ("\n"@ + s4));
                }
                self.write_production(g, other_production, max_width);
                let ghost s5 = s4 + spec_production_text(*g, other_production as int, w);
                proof {
                    let t = spec_production_text(*g, other_production as int, w);
                    crate::text::lemma_app_assoc(old(self).out@, "\n"@ + s4, t);
                    crate::text::lemma_app_assoc("\n"@, s4, t);
                    assert(self.out@ == old(self).out@ + ("\n"@ + s5));
                }
                self.write_lookahead(g, &conflict.lookahead);
                proof {
                    let la = spec_lookahead_text(*g, conflict.lookahead);
                    crate::text::lemma_app_assoc(old(self).out@, "\n"@ + s5, la);
                    assert(self.out@ == old(self).out@ + (("\n"@ + s5) + la));
                    assert(("\n"@ + s5) + la == spec_conflict_text(*g, *conflict));
                }
            },
        }
    }

    /// Appends one state block, rendering the conflicts of `conflicts` that
    /// this state owns.
    #[verifier::loop_isolation(false)]
    #[verifier::rlimit(100)]
    fn report_state(&mut self, g: &Grammar, state: &State, conflicts: &Vec<Conflict>)
        requires
            grammar_wf(*g),
            state_wf(*g, *state, usize::MAX as nat),
            conflicts_wf(*g, conflicts@, usize::MAX as nat),
        ensures
            final(self).out@ == old(self).out@ + spec_state_text(*g, *state, conflicts@),
    {
        let ghost t_head = "State "@ + spec_dec(state.index as nat) + " {\n"@;
        let ghost t_items = spec_items_text(
            *g,
            state.items.vec@,
            spec_items_width(*g, state.items.vec@),
        );
        let ghost t_red = if state.reductions@.len() > 0 {
            "\n"@ + spec_reductions_text(
                *g,
                state.reductions@,
                spec_reductions_width(*g, state.reductions@),
            )
        } else {
            Seq::<char>::empty()
        };
        let ghost w = spec_width_for_gotos(*g, *state);
        let ghost t_shift = if state.shifts@.len() > 0 {
            "\n"@ + spec_shifts_text(*g, state.shifts@, w)
        } else {
            Seq::<char>::empty()
        };
        let ghost t_goto = if state.gotos@.len() > 0 {
            "\n"@ + spec_gotos_text(*g, state.gotos@, w)
        } else {
            Seq::<char>::empty()
        };
        let ghost t_conf = spec_conflicts_text(*g, spec_conflicts_for(conflicts@, state.index));

        self.out.append("State ");
        push_dec(&mut self.out, state.index as u64);
        self.out.append(" {\n");
        proof {
            assert(self.out@ =~= old(self).out@ + t_head);
        }
        self.write_items(g, &state.items);
        let ghost a2 = t_head + t_items;
        proof {
            crate::text::lemma_app_assoc(old(self).out@, t_head, t_items);
            assert(self.out@ == old(self).out@ + a2);
        }
        if state.reductions.len() > 0 {
            self.out.append("\n");
            self.write_reductions(g, &state.reductions);
            proof {
                let x = spec_reductions_text(
                    *g,
                    state.reductions@,
                    spec_reductions_width(*g, state.reductions@),
                );
                crate::text::lemma_app_assoc(old(self).out@ + a2, "\n"@, x);
                crate::text::lemma_app_assoc(old(self).out@, a2, t_red);
            }
        } else {
            proof {
                crate::text::lemma_app_empty(a2);
            }
        }
        let ghost a3 = a2 + t_red;
        proof {
            assert(self.out@ == old(self).out@ + a3);
        }
        let max_width = get_width_for_gotos(g, state);
        if state.shifts.len() > 0 {
            self.out.append("\n");
            self.write_shifts(g, &state.shifts, max_width);
            proof {
                let x = spec_shifts_text(*g, state.shifts@, w);
                assert(max_width as nat == w);
                crate::text::lemma_app_assoc(old(self).out@ + a3, "\n"@, x);
                crate::text::lemma_app_assoc(old(self).out@, a3, t_shift);
            }
        } else {
            proof {
                crate::text::lemma_app_empty(a3);
            }
        }
        let ghost a4 = a3 + t_shift;
        proof {
            assert(self.out@ == old(self).out@ + a4);
        }
        if state.gotos.len() > 0 {
            self.out.append("\n");
            self.write_gotos(g, &state.gotos, max_width);
            proof {
                let x = spec_gotos_text(*g, state.gotos@, w);
                assert(max_width as nat == w);
                crate::text::lemma_app_assoc(old(self).out@ + a4, "\n"@, x);
                crate::text::lemma_app_assoc(old(self).out@, a4, t_goto);
            }
        } else {
            proof {
                crate::text::lemma_app_empty(a4);
            }
        }
        let ghost a5 = a4 + t_goto;
        proof {
            assert(self.out@ == old(self).out@ + a5);
        }
        let ghost base = self.out@;
        let mut i: usize = 0;
        while i < conflicts.len()
            invariant
                0 <= i <= conflicts@.len(),
                self.out@ == base + spec_conflicts_text(
                    *g,
                    spec_conflicts_for(conflicts@.subrange(0, i as int), state.index),
                ),
            decreases conflicts@.len() - i,
        {
            if conflicts[i].state == state.index {
                self.write_conflict(g, &conflicts[i]);
            }
            proof {
                lemma_conflicts_for_snoc(*g, conflicts@, i as int, state.index);
                if conflicts@[i as int].state == state.index {
                    crate::text::lemma_app_assoc(
                        base,
                        spec_conflicts_text(
                            *g,
                            spec_conflicts_for(conflicts@.subrange(0, i as int), state.index),
                        ),
                        spec_conflict_text(*g, conflicts@[i as int]),
                    );
                }
            }
            i = i + 1;
        }
        proof {
            assert(conflicts@.subrange(0, conflicts@.len() as int) =~= conflicts@);
            crate::text::lemma_app_assoc(old(self).out@, a5, t_conf);
            assert(self.out@ == old(self).out@ + (a5 + t_conf));
        }
        let ghost a6 = a5 + t_conf;
        self.out.append("}\n");
        proof {
            crate::text::lemma_app_assoc(old(self).out@, a6, "}\n"@);
            assert(self.out@ == old(self).out@ + (a6 + "}\n"@));
            assert(a6 + "}\n"@ == spec_state_text(*g, *state, conflicts@));
        }
    }

    /// Appends the state-table section: its header, then every state block.
    #[verifier::loop_isolation(false)]
    #[verifier::rlimit(100)]
    fn report_states(&mut self, g: &Grammar, states: &Vec<State>, conflicts: &Vec<Conflict>)
        requires
            grammar_wf(*g),
            states_wf(*g, states@),
            conflicts_wf(*g, conflicts@, states@.len()),
        ensures
            final(self).out@ == old(self).out@ + spec_states_text(*g, states@, conflicts@),
    {
        self.write_section_header("State Table");
        let mut i: usize = 0;
        while i < states.len()
            invariant
                0 <= i <= states@.len(),
                self.out@ == old(self).out@ + spec_states_text(
                    *g,
                    states@.subrange(0, i as int),
                    conflicts@,
                ),
            decreases states@.len() - i,
        {
            self.out.append("\n");
            proof {
                assert(state_wf(*g, states@[i as int], states@.len()));
                lemma_state_wf_weaken(*g, states@[i as int], states@.len(), usize::MAX as nat);
                lemma_conflicts_wf_weaken(*g, conflicts@, states@.len(), usize::MAX as nat);
            }
            self.report_state(g, &states[i], conflicts);
            proof {
                assert(states@.subrange(0, i + 1).drop_last() =~= states@.subrange(0, i as int));
                assert(states@.subrange(0, i + 1).last() == states@[i as int]);
                assert(self.out@ =~= old(self).out@ + spec_states_text(
                    *g,
                    states@.subrange(0, i + 1),
                    conflicts@,
                ));
            }
            i = i + 1;
        }
        proof {
            assert(states@.subrange(0, states@.len() as int) =~= states@);
        }
    }

    /// One pass over the conflicts: tallies the shift/reduce and
    /// reduce/reduce kinds and collects, in ascending order, the indices
    /// below `n_states` of the states that own at least one conflict.
    #[verifier::loop_isolation(false)]
    fn process_conflicts(&self, conflicts: &Vec<Conflict>, n_states: usize) -> (r: (
        usize,
        usize,
        Vec<usize>,
    ))
        ensures
            r.0 == spec_count_sr(conflicts@),
            r.1 == spec_count_rr(conflicts@),
            r.2@ == spec_conflict_keys(conflicts@, n_states as nat),
    {
        let mut sr: usize = 0;
        let mut rr: usize = 0;
        let mut i: usize = 0;
        while i < conflicts.len()
            invariant
                0 <= i <= conflicts@.len(),
                sr == spec_count_sr(conflicts@.subrange(0, i as int)),
                rr == spec_count_rr(conflicts@.subrange(0, i as int)),
                sr + rr <= i,
            decreases conflicts@.len() - i,
        {
            proof {
                assert(conflicts@.subrange(0, i + 1).drop_last() =~= conflicts@.subrange(
                    0,
                    i as int,
                ));
                assert(conflicts@.subrange(0, i + 1).last() == conflicts@[i as int]);
            }
            match conflicts[i].action {
                Action::Shift(_, _) => {
                    sr = sr + 1;
                },
                Action::Reduce(_) => {
                    rr = rr + 1;
                },
            }
            i = i + 1;
        }
        proof {
            assert(conflicts@.subrange(0, conflicts@.len() as int) =~= conflicts@);
        }
        let mut keys: Vec<usize> = Vec::new();
        let mut s: usize = 0;
        while s < n_states
            invariant
                0 <= s <= n_states,
                keys@ == spec_conflict_keys(conflicts@, s as nat),
            decreases n_states - s,
        {
            let mut found = false;
            let mut k: usize = 0;
            while k < conflicts.len()
                invariant
                    0 <= k <= conflicts@.len(),
                    found == exists|m: int| 0 <= m < k && (#[trigger] conflicts@[m]).state == s,
                decreases conflicts@.len() - k,
            {
                if conflicts[k].state == s {
                    found = true;
                }
                k = k + 1;
            }
            if found {
                keys.push(s);
                proof {
                    assert(keys@ =~= spec_conflict_keys(conflicts@, s as nat) + seq![s]);
                }
            }
            s = s + 1;
        }
        (sr, rr, keys)
    }

    /// Renders the whole report for `lr1result`: the title block, the
    /// summary (including, on failure, the conflict tallies and the list of
    /// states with conflicts), then the full state table.
    #[verifier::loop_isolation(false)]
    #[verifier::rlimit(100)]
    pub fn report_lr_table_construction(&mut self, g: &Grammar, lr1result: &Lr1Result)
        requires
            grammar_wf(*g),
            result_wf(*g, *lr1result),
        ensures
            final(self).out@ == old(self).out@ + spec_report(*g, *lr1result),
    {
        let ghost t_front = spec_header() + spec_section_header("Summary"@) + "\n"@;
        self.write_header();
        self.write_section_header("Summary");
        self.out.append("\n");
        proof {
            crate::text::lemma_app_assoc(old(self).out@, spec_header(), spec_section_header("Summary"@));
            crate::text::lemma_app_assoc(
                old(self).out@,
                spec_header() + spec_section_header("Summary"@),
                "\n"@,
            );
            assert(self.out@ == old(self).out@ + t_front);
        }
        match lr1result {
            Ok(states) => {
                let ghost t_count = "Constructed "@ + spec_dec(states@.len()) + " states\n"@;
                self.out.append("Constructed ");
                push_dec(&mut self.out, states.len() as u64);
                self.out.append(" states\n");
                proof {
                    let b = old(self).out@ + t_front;
                    crate::text::lemma_app_assoc(b, "Constructed "@, spec_dec(states@.len()));
                    crate::text::lemma_app_assoc(
                        b,
                        "Constructed "@ + spec_dec(states@.len()),
                        " states\n"@,
                    );
                    crate::text::lemma_app_assoc(old(self).out@, t_front, t_count);
                    assert(self.out@ == old(self).out@ + (t_front + t_count));
                }
                let no_conflicts: Vec<Conflict> = Vec::new();
                self.report_states(g, states, &no_conflicts);
                proof {
                    assert(no_conflicts@ =~= Seq::<Conflict>::empty());
                    let t_table = spec_states_text(*g, states@, Seq::<Conflict>::empty());
                    crate::text::lemma_app_assoc(old(self).out@, t_front + t_count, t_table);
                    crate::text::lemma_app_assoc(t_front, t_count, t_table);
                    assert(self.out@ == old(self).out@ + (t_front + t_count + t_table));
                    assert(t_front + t_count + t_table == spec_report(*g, *lr1result));
                }
            },
            Err(table_construction_error) => {
                let ghost cs = table_construction_error.conflicts@;
                let ghost n_states = table_construction_error.states@.len();
                let ghost t_count = "Failure\n"@ + "Constructed "@ + spec_dec(n_states)
                    + " states\n"@ + "Has "@ + spec_dec(cs.len()) + " conflicts\n"@;
                self.out.append("Failure\n");
                self.out.append("Constructed ");
                push_dec(&mut self.out, table_construction_error.states.len() as u64);
                self.out.append(" states\n");
                self.out.append("Has ");
                push_dec(&mut self.out, table_construction_error.conflicts.len() as u64);
                self.out.append(" conflicts\n");
                proof {
                    let b = old(self).out@ + t_front;
                    crate::text::lemma_app_assoc(b, "Failure\n"@, "Constructed "@);
                    crate::text::lemma_app_assoc(b, "Failure\n"@ + "Constructed "@, spec_dec(n_states));
                    crate::text::lemma_app_assoc(
                        b,
                        "Failure\n"@ + "Constructed "@ + spec_dec(n_states),
                        " states\n"@,
                    );
                    crate::text::lemma_app_assoc(
                        b,
                        "Failure\n"@ + "Constructed "@ + spec_dec(n_states) + " states\n"@,
                        "Has "@,
                    );
                    crate::text::lemma_app_assoc(
                        b,
                        "Failure\n"@ + "Constructed "@ + spec_dec(n_states) + " states\n"@ + "Has "@,
                        spec_dec(cs.len()),
                    );
                    crate::text::lemma_app_assoc(
                        b,
                        "Failure\n"@ + "Constructed "@ + spec_dec(n_states) + " states\n"@ + "Has "@
                            + spec_dec(cs.len()),
                        " conflicts\n"@,
                    );
                    crate::text::lemma_app_assoc(old(self).out@, t_front, t_count);
                    assert(self.out@ == old(self).out@ + (t_front + t_count));
                }
                let (sr, rr, keys) = self.process_conflicts(
                    &table_construction_error.conflicts,
                    table_construction_error.states.len(),
                );
                let ghost t_sr = if spec_count_sr(cs) > 0 {
                    "    shift/reduce:  "@ + spec_dec(spec_count_sr(cs)) + "\n"@
                } else {
                    Seq::<char>::empty()
                };
                let ghost t_rr = if spec_count_rr(cs) > 0 {
                    "    reduce/reduce: "@ + spec_dec(spec_count_rr(cs)) + "\n"@
                } else {
                    Seq::<char>::empty()
                };
                if sr > 0 {
                    self.out.append("    shift/reduce:  ");
                    push_dec(&mut self.out, sr as u64);
                    self.out.append("\n");
                }
                proof {
                    let a = old(self).out@ + (t_front + t_count);
                    if sr > 0 {
                        crate::text::lemma_app_assoc(
                            a,
                            "    shift/reduce:  "@,
                            spec_dec(spec_count_sr(cs)),
                        );
                        crate::text::lemma_app_assoc(
                            a,
                            "    shift/reduce:  "@ + spec_dec(spec_count_sr(cs)),
                            "\n"@,
                        );
                    } else {
                        crate::text::lemma_app_empty(a);
                    }
                    assert(self.out@ == a + t_sr);
                }
                if rr > 0 {
                    self.out.append("    reduce/reduce: ");
                    push_dec(&mut self.out, rr as u64);
                    self.out.append("\n");
                }
                proof {
                    let a = old(self).out@ + (t_front + t_count);
                    if rr > 0 {
                        crate::text::lemma_app_assoc(
                            a + t_sr,
                            "    reduce/reduce: "@,
                            spec_dec(spec_count_rr(cs)),
                        );
                        crate::text::lemma_app_assoc(
                            a + t_sr,
                            "    reduce/reduce: "@ + spec_dec(spec_count_rr(cs)),
                            "\n"@,
                        );
                    } else {
                        crate::text::lemma_app_empty(a + t_sr);
                    }
                    assert(self.out@ == a + t_sr + t_rr);
                    crate::text::lemma_app_assoc(a, t_sr, t_rr);
                    crate::text::lemma_app_assoc(old(self).out@, t_front + t_count, t_sr + t_rr);
                    crate::text::lemma_app_assoc(t_front + t_count, t_sr, t_rr);
                    crate::text::lemma_app_assoc(t_front, t_count, t_sr);
                    assert(self.out@ == old(self).out@ + (t_front + t_count + t_sr + t_rr));
                }
                self.out.append("States with conflicts: ");
                let ghost base = self.out@;
                let mut i: usize = 0;
                while i < keys.len()
                    invariant
                        0 <= i <= keys@.len(),
                        self.out@ == base + spec_keys_text(keys@.subrange(0, i as int)),
                    decreases keys@.len() - i,
                {
                    self.out.append(" ");
                    push_dec(&mut self.out, keys[i] as u64);
                    proof {
                        assert(keys@.subrange(0, i + 1).drop_last() =~= keys@.subrange(0, i as int));
                        assert(keys@.subrange(0, i + 1).last() == keys@[i as int]);
                        assert(self.out@ =~= base + spec_keys_text(keys@.subrange(0, i + 1)));
                    }
                    i = i + 1;
                }
                self.out.append("\n");
                let ghost t_keys = "States with conflicts: "@ + spec_keys_text(
                    spec_conflict_keys(cs, n_states),
                ) + "\n"@;
                let ghost a4 = t_front + t_count + t_sr + t_rr;
                proof {
                    assert(keys@.subrange(0, keys@.len() as int) =~= keys@);
                    let kt = spec_keys_text(spec_conflict_keys(cs, n_states));
                    assert(base == old(self).out@ + a4 + "States with conflicts: "@);
                    assert(self.out@ == base + kt + "\n"@);
                    crate::text::lemma_app_assoc(old(self).out@ + a4, "States with conflicts: "@, kt);
                    crate::text::lemma_app_assoc(
                        old(self).out@ + a4,
                        "States with conflicts: "@ + kt,
                        "\n"@,
                    );
                    assert(self.out@ == old(self).out@ + a4 + t_keys);
                    crate::text::lemma_app_assoc(old(self).out@, a4, t_keys);
                    assert(self.out@ == old(self).out@ + (a4 + t_keys));
                }
                self.report_states(
                    g,
                    &table_construction_error.states,
                    &table_construction_error.conflicts,
                );
                proof {
                    let t_table = spec_states_text(*g, table_construction_error.states@, cs);
                    crate::text::lemma_app_assoc(old(self).out@, a4 + t_keys, t_table);
                    assert(self.out@ == old(self).out@ + (a4 + t_keys + t_table));
                    crate::text::lemma_app_assoc(t_front, t_count, t_sr);
                    crate::text::lemma_app_assoc(t_front, t_count + t_sr, t_rr);
                    crate::text::lemma_app_assoc(t_front, t_count + t_sr + t_rr, t_keys);
                    crate::text::lemma_app_assoc(t_front, t_count + t_sr + t_rr + t_keys, t_table);
                    assert(a4 + t_keys + t_table == t_front + (t_count + t_sr + t_rr + t_keys
                        + t_table));
                    crate::text::lemma_app_assoc(t_count, t_sr, t_rr);
                    crate::text::lemma_app_assoc(t_count, t_sr + t_rr, t_keys);
                    assert(t_count + t_sr + t_rr + t_keys == t_count + (t_sr + t_rr + t_keys));
                    let kt = spec_keys_text(spec_conflict_keys(cs, n_states));
                    crate::text::lemma_app_assoc(t_sr + t_rr, "States with conflicts: "@, kt);
                    crate::text::lemma_app_assoc(
                        t_sr + t_rr,
                        "States with conflicts: "@ + kt,
                        "\n"@,
                    );
                    assert(t_sr + t_rr + t_keys == spec_err_summary(
                        *g,
                        *table_construction_error,
                    ));
                    assert(self.out@ == old(self).out@ + spec_report(*g, *lr1result));
                }
            },
        }
    }
}

/// The widest nonterminal display length among `items`.
#[verifier::loop_isolation(false)]
fn items_width_exec(g: &Grammar, items: &Vec<crate::state::Item>) -> (r: usize)
    requires
        grammar_wf(*g),
        items_wf(*g, items@),
    ensures
        r == spec_items_width(*g, items@),
{
    let mut w: usize = 0;
    let mut i: usize = 0;
    while i < items.len()
        invariant
            0 <= i <= items@.len(),
            w == spec_items_width(*g, items@.subrange(0, i as int)),
        decreases items@.len() - i,
    {
        proof {
            assert(item_wf(*g, items@[i as int]));
            assert(production_wf(
                g.productions@[items@[i as int].production as int],
                g.terminals@.len(),
                g.nonterminals@.len(),
            ));
            assert(items@.subrange(0, i + 1).drop_last() =~= items@.subrange(0, i as int));
            assert(items@.subrange(0, i + 1).last() == items@[i as int]);
        }
        let n = g.nonterminals[g.productions[items[i].production].nonterminal]
            .as_str()
            .unicode_len();
        if n > w {
            w = n;
        }
        i = i + 1;
    }
    proof {
        assert(items@.subrange(0, items@.len() as int) =~= items@);
    }
    w
}

/// The widest nonterminal display length among reduction entries.
#[verifier::loop_isolation(false)]
fn reductions_width_exec(g: &Grammar, rs: &Vec<(Lookahead, usize)>) -> (r: usize)
    requires
        grammar_wf(*g),
        forall|k: int| 0 <= k < rs@.len() ==> (#[trigger] rs@[k]).1 < g.productions@.len(),
    ensures
        r == spec_reductions_width(*g, rs@),
{
    let mut w: usize = 0;
    let mut i: usize = 0;
    while i < rs.len()
        invariant
            0 <= i <= rs@.len(),
            w == spec_reductions_width(*g, rs@.subrange(0, i as int)),
        decreases rs@.len() - i,
    {
        proof {
            assert(production_wf(
                g.productions@[rs@[i as int].1 as int],
                g.terminals@.len(),
                g.nonterminals@.len(),
            ));
            assert(rs@.subrange(0, i + 1).drop_last() =~= rs@.subrange(0, i as int));
            assert(rs@.subrange(0, i + 1).last() == rs@[i as int]);
        }
        let n = g.nonterminals[g.productions[rs[i].1].nonterminal].as_str().unicode_len();
        if n > w {
            w = n;
        }
        i = i + 1;
    }
    proof {
        assert(rs@.subrange(0, rs@.len() as int) =~= rs@);
    }
    w
}

/// The widest display length among the names used in the given list.
#[verifier::loop_isolation(false)]
pub fn get_max_length(names: &Vec<String>) -> (r: usize)
    ensures
        r == spec_max_len(names@),
{
    let mut w: usize = 0;
    let mut i: usize = 0;
    while i < names.len()
        invariant
            0 <= i <= names@.len(),
            w == spec_max_len(names@.subrange(0, i as int)),
        decreases names@.len() - i,
    {
        proof {
            assert(names@.subrange(0, i + 1).drop_last() =~= names@.subrange(0, i as int));
            assert(names@.subrange(0, i + 1).last() == names@[i as int]);
        }
        let n = names[i].as_str().unicode_len();
        if n > w {
            w = n;
        }
        i = i + 1;
    }
    proof {
        assert(names@.subrange(0, names@.len() as int) =~= names@);
    }
    w
}

/// The widest display length among `names`.
pub open spec fn spec_max_len(names: Seq<String>) -> nat
    decreases names.len(),
{
    if names.len() == 0 {
        0
    } else {
        let rest = spec_max_len(names.drop_last());
        let this = names.last()@.len();
        if this > rest {
            this
        } else {
            rest
        }
    }
}

/// The field width shared by the shifts and gotos blocks of `state`: the
/// widest label among both tables' keys.
#[verifier::loop_isolation(false)]
pub fn get_width_for_gotos(g: &Grammar, state: &State) -> (r: usize)
    requires
        grammar_wf(*g),
        forall|k: int|
            0 <= k < state.shifts@.len() ==> (#[trigger] state.shifts@[k]).0 < g.terminals@.len(),
        forall|k: int|
            0 <= k < state.gotos@.len() ==> (#[trigger] state.gotos@[k]).0 < g.nonterminals@.len(),
    ensures
        r == spec_width_for_gotos(*g, *state),
{
    let mut w: usize = 0;
    let mut i: usize = 0;
    while i < state.shifts.len()
        invariant
            0 <= i <= state.shifts@.len(),
            w == spec_shift_keys_width(*g, state.shifts@.subrange(0, i as int)),
        decreases state.shifts@.len() - i,
    {
        proof {
            assert(state.shifts@.subrange(0, i + 1).drop_last() =~= state.shifts@.subrange(
                0,
                i as int,
            ));
            assert(state.shifts@.subrange(0, i + 1).last() == state.shifts@[i as int]);
        }
        let n = g.terminals[state.shifts[i].0].as_str().unicode_len();
        if n > w {
            w = n;
        }
        i = i + 1;
    }
    proof {
        assert(state.shifts@.subrange(0, state.shifts@.len() as int) =~= state.shifts@);
    }
    let mut v: usize = 0;
    let mut j: usize = 0;
    while j < state.gotos.len()
        invariant
            0 <= j <= state.gotos@.len(),
            v == spec_goto_keys_width(*g, state.gotos@.subrange(0, j as int)),
        decreases state.gotos@.len() - j,
    {
        proof {
            assert(state.gotos@.subrange(0, j + 1).drop_last() =~= state.gotos@.subrange(
                0,
                j as int,
            ));
            assert(state.gotos@.subrange(0, j + 1).last() == state.gotos@[j as int]);
        }
        let n = g.nonterminals[state.gotos[j].0].as_str().unicode_len();
        if n > v {
            v = n;
        }
        j = j + 1;
    }
    proof {
        assert(state.gotos@.subrange(0, state.gotos@.len() as int) =~= state.gotos@);
    }
    if w > v {
        w
    } else {
        v
    }
}

// ---------------------------------------------------------------------------
// Laws of the report
// ---------------------------------------------------------------------------

/// Every conflict is classified as exactly one of the two kinds: the printed
/// shift/reduce and reduce/reduce tallies always sum to the printed total
/// `Has {K} conflicts`, which is the length of the conflict list.
pub proof fn lemma_conflict_counts(cs: Seq<Conflict>)
    ensures
        spec_count_sr(cs) + spec_count_rr(cs) == cs.len(),
    decreases cs.len(),
{
    if cs.len() > 0 {
        lemma_conflict_counts(cs.drop_last());
    }
}

/// Rendering is deterministic: the report text is a function of the grammar
/// and the construction outcome alone, so rendering the same `Lr1Result`
/// twice produces byte-identical output.
pub proof fn lemma_report_deterministic(g1: Grammar, g2: Grammar, r1: Lr1Result, r2: Lr1Result)
    requires
        g1 == g2,
        r1 == r2,
    ensures
        spec_report(g1, r1) == spec_report(g2, r2),
{
}

/// One state block with no conflict blocks at all.
pub open spec fn spec_state_text_plain(g: Grammar, st: State) -> Seq<char> {
    let w = spec_width_for_gotos(g, st);
    "State "@ + spec_dec(st.index as nat) + " {\n"@ + spec_items_text(
        g,
        st.items.vec@,
        spec_items_width(g, st.items.vec@),
    ) + (if st.reductions@.len() > 0 {
        "\n"@ + spec_reductions_text(g, st.reductions@, spec_reductions_width(g, st.reductions@))
    } else {
        Seq::empty()
    }) + (if st.shifts@.len() > 0 {
        "\n"@ + spec_shifts_text(g, st.shifts@, w)
    } else {
        Seq::empty()
    }) + (if st.gotos@.len() > 0 {
        "\n"@ + spec_gotos_text(g, st.gotos@, w)
    } else {
        Seq::empty()
    }) + "}\n"@
}

/// The state table rendered with no conflict text anywhere.
pub open spec fn spec_states_text_plain(g: Grammar, states: Seq<State>) -> Seq<char>
    decreases states.len(),
{
    if states.len() == 0 {
        spec_section_header("State Table"@)
    } else {
        spec_states_text_plain(g, states.drop_last()) + "\n"@ + spec_state_text_plain(
            g,
            states.last(),
        )
    }
}

/// The report of a successful construction: `Constructed {N} states`, with
/// no `shift/reduce` or `reduce/reduce` tally lines and no conflict blocks.
pub open spec fn spec_report_ok(g: Grammar, states: Seq<State>) -> Seq<char> {
    spec_header() + spec_section_header("Summary"@) + "\n"@ + ("Constructed "@ + spec_dec(
        states.len(),
    ) + " states\n"@ + spec_states_text_plain(g, states))
}

proof fn lemma_state_text_no_conflicts(g: Grammar, st: State)
    ensures
        spec_state_text(g, st, Seq::<Conflict>::empty()) == spec_state_text_plain(g, st),
{
    let a = "State "@ + spec_dec(st.index as nat) + " {\n"@ + spec_items_text(
        g,
        st.items.vec@,
        spec_items_width(g, st.items.vec@),
    ) + (if st.reductions@.len() > 0 {
        "\n"@ + spec_reductions_text(g, st.reductions@, spec_reductions_width(g, st.reductions@))
    } else {
        Seq::empty()
    }) + (if st.shifts@.len() > 0 {
        "\n"@ + spec_shifts_text(g, st.shifts@, spec_width_for_gotos(g, st))
    } else {
        Seq::empty()
    }) + (if st.gotos@.len() > 0 {
        "\n"@ + spec_gotos_text(g, st.gotos@, spec_width_for_gotos(g, st))
    } else {
        Seq::empty()
    });
    assert(spec_conflicts_for(Seq::<Conflict>::empty(), st.index) =~= Seq::<Conflict>::empty());
    assert(spec_conflicts_text(g, Seq::<Conflict>::empty()) =~= Seq::<char>::empty());
    crate::text::lemma_app_empty(a);
}

/// For every well-formed automaton given as `Ok(states)`, the rendered
/// report is exactly the conflict-free form: it announces
/// `Constructed {N} states` and contains no conflict tallies and no
/// conflict blocks in any state.
pub proof fn lemma_report_ok_has_no_conflicts(g: Grammar, states: Vec<State>)
    ensures
        spec_report(g, Ok(states)) == spec_report_ok(g, states@),
{
    lemma_states_text_no_conflicts(g, states@);
    let t_front = spec_header() + spec_section_header("Summary"@) + "\n"@;
    let t_count = "Constructed "@ + spec_dec(states@.len()) + " states\n"@;
    let t_table = spec_states_text_plain(g, states@);
    crate::text::lemma_app_assoc(t_front, t_count, t_table);
}

proof fn lemma_states_text_no_conflicts(g: Grammar, states: Seq<State>)
    ensures
        spec_states_text(g, states, Seq::<Conflict>::empty()) == spec_states_text_plain(g, states),
    decreases states.len(),
{
    if states.len() > 0 {
        lemma_states_text_no_conflicts(g, states.drop_last());
        lemma_state_text_no_conflicts(g, states.last());
    }
}

/// Each padded run of spaces has exactly the requested width.
proof fn lemma_spaces_len(n: nat)
    ensures
        crate::text::spec_spaces(n).len() == n,
    decreases n,
{
    if n > 0 {
        lemma_spaces_len((n - 1) as nat);
    }
}

/// A label no wider than the field is padded to exactly the field width.
pub proof fn lemma_pad_len(s: Seq<char>, w: nat)
    requires
        s.len() <= w,
    ensures
        spec_pad(s, w).len() == w,
{
    lemma_spaces_len((w - s.len()) as nat);
}

/// The block width of an item set bounds every label in the block.
pub proof fn lemma_items_width_is_max(g: Grammar, items: Seq<crate::state::Item>)
    ensures
        forall|k: int|
            0 <= k < items.len() ==> spec_nt_name(
                g,
                g.productions@[(#[trigger] items[k]).production as int].nonterminal as int,
            ).len() <= spec_items_width(g, items),
    decreases items.len(),
{
    if items.len() > 0 {
        lemma_items_width_is_max(g, items.drop_last());
        assert(forall|k: int| 0 <= k < items.len() - 1 ==> items.drop_last()[k] == items[k]);
    }
}

/// Padding invariant for an items block: every nonterminal label is padded
/// to one shared width — the maximum label length over this block alone —
/// so every `->` arrow in the block starts at the same column.
pub proof fn lemma_items_block_aligned(g: Grammar, items: Seq<crate::state::Item>)
    ensures
        forall|k: int|
            0 <= k < items.len() ==> spec_pad(
                spec_nt_name(
                    g,
                    g.productions@[(#[trigger] items[k]).production as int].nonterminal as int,
                ),
                spec_items_width(g, items),
            ).len() == spec_items_width(g, items),
{
    lemma_items_width_is_max(g, items);
    assert forall|k: int| 0 <= k < items.len() implies spec_pad(
        spec_nt_name(
            g,
            g.productions@[(#[trigger] items[k]).production as int].nonterminal as int,
        ),
        spec_items_width(g, items),
    ).len() == spec_items_width(g, items) by {
        lemma_pad_len(
            spec_nt_name(
                g,
                g.productions@[items[k].production as int].nonterminal as int,
            ),
            spec_items_width(g, items),
        );
    }
}

/// The block width of a reductions block bounds every label in the block.
pub proof fn lemma_reductions_width_is_max(g: Grammar, rs: Seq<(Lookahead, usize)>)
    ensures
        forall|k: int|
            0 <= k < rs.len() ==> spec_nt_name(
                g,
                g.productions@[(#[trigger] rs[k]).1 as int].nonterminal as int,
            ).len() <= spec_reductions_width(g, rs),
    decreases rs.len(),
{
    if rs.len() > 0 {
        lemma_reductions_width_is_max(g, rs.drop_last());
        assert(forall|k: int| 0 <= k < rs.len() - 1 ==> rs.drop_last()[k] == rs[k]);
    }
}

/// Padding invariant for a reductions block: every nonterminal label is
/// padded to the block's own maximum label length, computed independently of
/// the items block, so the block's `->` arrows align vertically.
pub proof fn lemma_reductions_block_aligned(g: Grammar, rs: Seq<(Lookahead, usize)>)
    ensures
        forall|k: int|
            0 <= k < rs.len() ==> spec_pad(
                spec_nt_name(g, g.productions@[(#[trigger] rs[k]).1 as int].nonterminal as int),
                spec_reductions_width(g, rs),
            ).len() == spec_reductions_width(g, rs),
{
    lemma_reductions_width_is_max(g, rs);
    assert forall|k: int| 0 <= k < rs.len() implies spec_pad(
        spec_nt_name(g, g.productions@[(#[trigger] rs[k]).1 as int].nonterminal as int),
        spec_reductions_width(g, rs),
    ).len() == spec_reductions_width(g, rs) by {
        lemma_pad_len(
            spec_nt_name(g, g.productions@[rs[k].1 as int].nonterminal as int),
            spec_reductions_width(g, rs),
        );
    }
}

/// A state well formed against a small automaton is well formed against a
/// larger bound too.
proof fn lemma_state_wf_weaken(g: Grammar, st: State, n1: nat, n2: nat)
    requires
        state_wf(g, st, n1),
        n1 <= n2,
    ensures
        state_wf(g, st, n2),
{
}

proof fn lemma_conflicts_wf_weaken(g: Grammar, cs: Seq<Conflict>, n1: nat, n2: nat)
    requires
        conflicts_wf(g, cs, n1),
        n1 <= n2,
    ensures
        conflicts_wf(g, cs, n2),
{
    assert forall|i: int| 0 <= i < cs.len() implies conflict_wf(g, #[trigger] cs[i], n2) by {
        assert(conflict_wf(g, cs[i], n1));
    }
}

/// Extending the conflict list by one element extends the per-state
/// filtering and its rendering accordingly.
proof fn lemma_conflicts_for_snoc(g: Grammar, cs: Seq<Conflict>, i: int, s: usize)
    requires
        0 <= i < cs.len(),
    ensures
        cs[i].state == s ==> spec_conflicts_text(g, spec_conflicts_for(cs.subrange(0, i + 1), s))
            == spec_conflicts_text(g, spec_conflicts_for(cs.subrange(0, i), s))
            + spec_conflict_text(g, cs[i]),
        cs[i].state != s ==> spec_conflicts_text(g, spec_conflicts_for(cs.subrange(0, i + 1), s))
            == spec_conflicts_text(g, spec_conflicts_for(cs.subrange(0, i), s)),
{
    let s1 = cs.subrange(0, i + 1);
    let s0 = cs.subrange(0, i);
    assert(s1.drop_last() =~= s0);
    assert(s1.last() == cs[i]);
    if cs[i].state == s {
        let f0 = spec_conflicts_for(s0, s);
        let f1 = spec_conflicts_for(s1, s);
        assert(f1 =~= f0.push(cs[i]));
        lemma_conflicts_text_snoc(g, f0, cs[i]);
    } else {
        assert(spec_conflicts_for(s1, s) =~= spec_conflicts_for(s0, s) + Seq::empty());
        assert(spec_conflicts_for(s1, s) =~= spec_conflicts_for(s0, s));
    }
}

/// Rendering distributes over appending one conflict.
proof fn lemma_conflicts_text_snoc(g: Grammar, cs: Seq<Conflict>, c: Conflict)
    ensures
        spec_conflicts_text(g, cs.push(c)) == spec_conflicts_text(g, cs) + spec_conflict_text(g, c),
{
    assert(cs.push(c).drop_last() =~= cs);
    assert(cs.push(c).last() == c);
}

} // verus!
