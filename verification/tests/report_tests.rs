use lalrpop::construct::build_states;
use lalrpop::grammar::Grammar;
use lalrpop::grammar::Production;
use lalrpop::grammar::Symbol;
use lalrpop::lookahead::Lookahead;
use lalrpop::lookahead::TokenSet;
use lalrpop::report::generate_report;
use lalrpop::state::Action;
use lalrpop::state::Conflict;
use lalrpop::state::Items;
use lalrpop::state::State;
use lalrpop::state::TableConstructionError;

/// `__S -> S`, `S -> "a"`: the smallest useful grammar.
fn tiny_grammar() -> Grammar {
    Grammar {
        terminals: vec!["a".to_string()],
        nonterminals: vec!["__S".to_string(), "S".to_string()],
        productions: vec![
            Production { nonterminal: 0, symbols: vec![Symbol::Nonterminal(1)], action: 0 },
            Production { nonterminal: 1, symbols: vec![Symbol::Terminal(0)], action: 1 },
        ],
        start_production: 0,
    }
}

/// The arithmetic grammar: `Expr -> Expr "+" Factor | Factor`,
/// `Factor -> Factor "*" Term | Term`, `Term -> "(" Expr ")" | "Num"`,
/// augmented with `__Expr -> Expr`.
fn arithmetic_grammar() -> Grammar {
    // terminals: 0 "+", 1 "*", 2 "(", 3 ")", 4 "Num"
    // nonterminals: 0 __Expr, 1 Expr, 2 Factor, 3 Term
    Grammar {
        terminals: vec![
            "+".to_string(),
            "*".to_string(),
            "(".to_string(),
            ")".to_string(),
            "Num".to_string(),
        ],
        nonterminals: vec![
            "__Expr".to_string(),
            "Expr".to_string(),
            "Factor".to_string(),
            "Term".to_string(),
        ],
        productions: vec![
            Production { nonterminal: 0, symbols: vec![Symbol::Nonterminal(1)], action: 0 },
            Production {
                nonterminal: 1,
                symbols: vec![
                    Symbol::Nonterminal(1),
                    Symbol::Terminal(0),
                    Symbol::Nonterminal(2),
                ],
                action: 1,
            },
            Production { nonterminal: 1, symbols: vec![Symbol::Nonterminal(2)], action: 2 },
            Production {
                nonterminal: 2,
                symbols: vec![
                    Symbol::Nonterminal(2),
                    Symbol::Terminal(1),
                    Symbol::Nonterminal(3),
                ],
                action: 3,
            },
            Production { nonterminal: 2, symbols: vec![Symbol::Nonterminal(3)], action: 4 },
            Production {
                nonterminal: 3,
                symbols: vec![Symbol::Terminal(2), Symbol::Nonterminal(1), Symbol::Terminal(3)],
                action: 5,
            },
            Production { nonterminal: 3, symbols: vec![Symbol::Terminal(4)], action: 6 },
        ],
        start_production: 0,
    }
}

#[test]
fn tiny_grammar_full_report_text() {
    let g = tiny_grammar();
    assert!(g.check_wf());
    let result = build_states(&g, true);
    let report = generate_report(&g, &result);
    let expected = "Lalrpop Report File\n\
        ========================================\n\
        \nSummary\n\
        ----------------------------------------\n\
        \n\
        Constructed 3 states\n\
        \nState Table\n\
        ----------------------------------------\n\
        \n\
        State 0 {\n\
        \n    __S -> . S\n\
        \x20       lookahead EOF\n\
        \n    S   -> . a\n\
        \x20       lookahead EOF\n\
        \n    a shift and goto 1\n\
        \n    S goto 2\n\
        }\n\
        \nState 1 {\n\
        \n    S -> a .\n\
        \x20       lookahead EOF\n\
        \n\
        \n    reduction S -> a\n\
        \x20       lookahead EOF\n\
        }\n\
        \nState 2 {\n\
        \n    __S -> S .\n\
        \x20       lookahead EOF\n\
        \n\
        \n    reduction __S -> S\n\
        \x20       lookahead EOF\n\
        }\n";
    assert_eq!(report, expected);
}

#[test]
fn arithmetic_grammar_constructs_deterministically() {
    let g = arithmetic_grammar();
    assert!(g.check_wf());
    let first = build_states(&g, true);
    let second = build_states(&g, true);
    let states1 = match &first {
        Ok(states) => states.len(),
        Err(_) => panic!("the arithmetic grammar is LR(1)"),
    };
    let states2 = match &second {
        Ok(states) => states.len(),
        Err(_) => panic!("the arithmetic grammar is LR(1)"),
    };
    assert_eq!(states1, states2);
    let report1 = generate_report(&g, &first);
    let report2 = generate_report(&g, &second);
    assert_eq!(report1, report2);
    assert!(report1.contains(&format!("Constructed {} states", states1)));
    assert!(!report1.contains("shift/reduce"));
    assert!(!report1.contains("reduce/reduce"));
    assert!(!report1.contains("Failure"));
}

#[test]
fn rendering_twice_is_byte_identical() {
    let g = arithmetic_grammar();
    let result = build_states(&g, true);
    let once = generate_report(&g, &result);
    let twice = generate_report(&g, &result);
    assert_eq!(once.into_bytes(), twice.into_bytes());
}

#[test]
fn shift_goto_targets_are_valid_state_indices() {
    let g = arithmetic_grammar();
    let states = match build_states(&g, true) {
        Ok(states) => states,
        Err(_) => panic!("the arithmetic grammar is LR(1)"),
    };
    let n = states.len();
    for (i, st) in states.iter().enumerate() {
        assert_eq!(st.index, i);
        for &(_, target) in &st.shifts {
            assert!(target < n);
        }
        for &(_, target) in &st.gotos {
            assert!(target < n);
        }
    }
}

#[test]
fn shift_reduce_conflict_block_text() {
    // One state owning a shift on "-" to state 5 and a reduction of
    // E -> T valid when the lookahead includes "-".
    let g = Grammar {
        terminals: vec!["-".to_string()],
        nonterminals: vec!["E".to_string(), "T".to_string()],
        productions: vec![Production {
            nonterminal: 0,
            symbols: vec![Symbol::Nonterminal(1)],
            action: 0,
        }],
        start_production: 0,
    };
    assert!(g.check_wf());
    let mut states = Vec::new();
    for i in 0..6 {
        states.push(State {
            index: i,
            items: Items { vec: Vec::new() },
            shifts: if i == 0 { vec![(0, 5)] } else { Vec::new() },
            gotos: Vec::new(),
            reductions: if i == 0 {
                vec![(Lookahead::TokenSet(TokenSet { tokens: vec![0] }), 0)]
            } else {
                Vec::new()
            },
        });
    }
    let conflicts = vec![Conflict {
        state: 0,
        production: 0,
        action: Action::Shift(0, 5),
        lookahead: Lookahead::TokenSet(TokenSet { tokens: vec![0] }),
    }];
    let result = Err(TableConstructionError { states, conflicts });
    let report = generate_report(&g, &result);
    assert!(report.contains("Failure"));
    assert!(report.contains("Has 1 conflicts"));
    assert!(report.contains("    shift/reduce:  1\n"));
    assert!(!report.contains("reduce/reduce:"));
    assert!(report.contains("States with conflicts:  0\n"));
    assert!(report.contains(
        "    shift/reduce conflict\n\
         \x20       reduction E -> T\n\
         \x20       shift     -    shift and goto 5\n"
    ));
}

#[test]
fn lr0_mode_reports_conflicts_of_ambiguous_grammar() {
    // __S -> S; S -> "a" | "a" "b": after shifting "a", LR(0) cannot choose
    // between reducing S -> "a" and shifting "b".
    let g = Grammar {
        terminals: vec!["a".to_string(), "b".to_string()],
        nonterminals: vec!["__S".to_string(), "S".to_string()],
        productions: vec![
            Production { nonterminal: 0, symbols: vec![Symbol::Nonterminal(1)], action: 0 },
            Production { nonterminal: 1, symbols: vec![Symbol::Terminal(0)], action: 1 },
            Production {
                nonterminal: 1,
                symbols: vec![Symbol::Terminal(0), Symbol::Terminal(1)],
                action: 2,
            },
        ],
        start_production: 0,
    };
    assert!(g.check_wf());
    let result = build_states(&g, false);
    let err = match result {
        Ok(_) => panic!("LR(0) must reject this grammar"),
        Err(e) => e,
    };
    assert_eq!(err.conflicts.len(), 1);
    let g2 = g.clone();
    let report = generate_report(&g2, &Err(err));
    assert!(report.contains("Failure"));
    assert!(report.contains("Has 1 conflicts"));
    assert!(report.contains("    shift/reduce:  1\n"));
    assert!(report.contains("shift/reduce conflict"));
}

#[test]
fn lr1_accepts_what_lr0_rejects() {
    // The same grammar is LR(1): the reduction of S -> "a" applies only on
    // end of input, which cannot be shifted.
    let g = Grammar {
        terminals: vec!["a".to_string(), "b".to_string()],
        nonterminals: vec!["__S".to_string(), "S".to_string()],
        productions: vec![
            Production { nonterminal: 0, symbols: vec![Symbol::Nonterminal(1)], action: 0 },
            Production { nonterminal: 1, symbols: vec![Symbol::Terminal(0)], action: 1 },
            Production {
                nonterminal: 1,
                symbols: vec![Symbol::Terminal(0), Symbol::Terminal(1)],
                action: 2,
            },
        ],
        start_production: 0,
    };
    assert!(build_states(&g, true).is_ok());
}

#[test]
fn reduce_reduce_conflict_is_classified() {
    // __S -> S; S -> A | B; A -> "a"; B -> "a": after "a", both A -> "a"
    // and B -> "a" reduce on end of input.
    let g = Grammar {
        terminals: vec!["a".to_string()],
        nonterminals: vec![
            "__S".to_string(),
            "S".to_string(),
            "A".to_string(),
            "B".to_string(),
        ],
        productions: vec![
            Production { nonterminal: 0, symbols: vec![Symbol::Nonterminal(1)], action: 0 },
            Production { nonterminal: 1, symbols: vec![Symbol::Nonterminal(2)], action: 1 },
            Production { nonterminal: 1, symbols: vec![Symbol::Nonterminal(3)], action: 2 },
            Production { nonterminal: 2, symbols: vec![Symbol::Terminal(0)], action: 3 },
            Production { nonterminal: 3, symbols: vec![Symbol::Terminal(0)], action: 4 },
        ],
        start_production: 0,
    };
    assert!(g.check_wf());
    let err = match build_states(&g, true) {
        Ok(_) => panic!("this grammar is ambiguous"),
        Err(e) => e,
    };
    assert!(err.conflicts.len() >= 1);
    let n_rr = err
        .conflicts
        .iter()
        .filter(|c| matches!(c.action, Action::Reduce(_)))
        .count();
    let n_sr = err.conflicts.len() - n_rr;
    assert!(n_rr >= 1);
    let report = generate_report(&g, &Err(err));
    assert!(report.contains("reduce/reduce conflict"));
    if n_sr == 0 {
        assert!(!report.contains("shift/reduce:"));
    }
    assert!(report.contains(&format!("    reduce/reduce: {}\n", n_rr)));
}

#[test]
fn conflict_tallies_sum_to_total() {
    // Under LR(0), reducing A -> "a" collides with shifting "b": the
    // printed tallies must sum to the printed total.
    let g = Grammar {
        terminals: vec!["a".to_string(), "b".to_string()],
        nonterminals: vec![
            "__S".to_string(),
            "S".to_string(),
            "A".to_string(),
            "B".to_string(),
        ],
        productions: vec![
            Production { nonterminal: 0, symbols: vec![Symbol::Nonterminal(1)], action: 0 },
            Production { nonterminal: 1, symbols: vec![Symbol::Nonterminal(2)], action: 1 },
            Production { nonterminal: 1, symbols: vec![Symbol::Nonterminal(3)], action: 2 },
            Production { nonterminal: 2, symbols: vec![Symbol::Terminal(0)], action: 3 },
            Production {
                nonterminal: 3,
                symbols: vec![Symbol::Terminal(0), Symbol::Terminal(1)],
                action: 4,
            },
        ],
        start_production: 0,
    };
    let err = match build_states(&g, false) {
        Ok(_) => panic!("LR(0) must reject this grammar"),
        Err(e) => e,
    };
    let n_sr = err
        .conflicts
        .iter()
        .filter(|c| matches!(c.action, Action::Shift(_, _)))
        .count();
    let n_rr = err.conflicts.len() - n_sr;
    assert_eq!(n_sr + n_rr, err.conflicts.len());
    let total = err.conflicts.len();
    let report = generate_report(&g, &Err(err));
    assert!(report.contains(&format!("Has {} conflicts", total)));
}

#[test]
fn nullable_nonterminal_merges_follow_context_into_lookahead() {
    // __S -> S; S -> A A; A -> "a" | (empty). Expanding the first A of
    // `S -> . A A` walks through the nullable remainder, so the implied
    // items carry FIRST(A) merged with the parent's end-of-input lookahead;
    // the empty production then reduces while "a" can be shifted, a genuine
    // ambiguity that LR(1) must report.
    let g = Grammar {
        terminals: vec!["a".to_string()],
        nonterminals: vec!["__S".to_string(), "S".to_string(), "A".to_string()],
        productions: vec![
            Production { nonterminal: 0, symbols: vec![Symbol::Nonterminal(1)], action: 0 },
            Production {
                nonterminal: 1,
                symbols: vec![Symbol::Nonterminal(2), Symbol::Nonterminal(2)],
                action: 1,
            },
            Production { nonterminal: 2, symbols: vec![Symbol::Terminal(0)], action: 2 },
            Production { nonterminal: 2, symbols: vec![], action: 3 },
        ],
        start_production: 0,
    };
    assert!(g.check_wf());
    let err = match build_states(&g, true) {
        Ok(_) => panic!("a nullable ambiguity must be reported"),
        Err(e) => e,
    };
    assert!(err
        .conflicts
        .iter()
        .any(|c| matches!(c.action, Action::Shift(_, _))));
    let report = generate_report(&g, &Err(err));
    // The empty production's item renders with the dot alone, and its
    // lookahead holds both the terminal and the end-of-input marker.
    assert!(report.contains("A   -> .\n"));
    assert!(report.contains("        lookahead a EOF\n"));
}

#[test]
fn lr0_mode_tracks_no_lookahead() {
    let g = tiny_grammar();
    let result = build_states(&g, false);
    assert!(result.is_ok());
    let report = generate_report(&g, &result);
    assert!(!report.contains("lookahead"));
    assert!(report.contains("Constructed 3 states"));
}

#[test]
fn items_block_arrows_align() {
    // State 0 of the arithmetic grammar mixes nonterminal names of several
    // lengths (`__Expr`, `Expr`, `Factor`, `Term`); every arrow of its
    // items block must start at the same column.
    let g = arithmetic_grammar();
    let result = build_states(&g, true);
    let report = generate_report(&g, &result);
    let start = report.find("State 0 {").expect("state 0 is rendered");
    let end = report.find("\nState 1 {").expect("state 1 is rendered");
    let block = &report[start..end];
    let positions: Vec<usize> = block
        .lines()
        .filter(|l| l.starts_with("    ") && l.contains("->"))
        .map(|l| l.find("->").unwrap())
        .collect();
    assert!(positions.len() >= 2);
    for p in &positions {
        assert_eq!(*p, positions[0]);
    }
}

#[test]
fn state_zero_is_the_start_state() {
    let g = tiny_grammar();
    let states = match build_states(&g, true) {
        Ok(states) => states,
        Err(_) => panic!("the tiny grammar is LR(1)"),
    };
    assert!(states.len() >= 1);
    assert_eq!(states[0].index, 0);
    // The start state holds the start item: the start production with the
    // dot at position zero.
    assert!(states[0]
        .items
        .vec
        .iter()
        .any(|it| it.production == g.start_production && it.index == 0));
}
