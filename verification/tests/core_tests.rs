use lalrpop::grammar::Grammar;
use lalrpop::grammar::Production;
use lalrpop::grammar::Symbol;
use lalrpop::lookahead::Lookahead;
use lalrpop::lookahead::TokenSet;
use lalrpop::token::Token;

#[test]
fn set_starts_empty() {
    let s = lalrpop::collections::set::<u32>();
    assert!(s.is_empty());
    let mut s2 = lalrpop::collections::set::<String>();
    s2.insert("x".to_string());
    assert_eq!(s2.len(), 1);
}

#[test]
fn token_display_strings() {
    assert_eq!(Token::KeywordVar.display_string(), "KeywordVar");
    assert_eq!(Token::KeywordPrint.display_string(), "KeywordPrint");
    assert_eq!(
        Token::Identifier("abc".to_string()).display_string(),
        "Identifier(\"abc\")"
    );
    assert_eq!(Token::Integer(42).display_string(), "Integer(42)");
    assert_eq!(Token::Integer(0).display_string(), "Integer(0)");
    assert_eq!(Token::Integer(-7).display_string(), "Integer(-7)");
    assert_eq!(
        Token::Integer(i64::MIN).display_string(),
        "Integer(-9223372036854775808)"
    );
    assert_eq!(Token::LParen.display_string(), "LParen");
    assert_eq!(Token::RParen.display_string(), "RParen");
    assert_eq!(Token::Assign.display_string(), "Assign");
    assert_eq!(Token::Semicolon.display_string(), "Semicolon");
    assert_eq!(Token::OperatorAdd.display_string(), "OperatorAdd");
    assert_eq!(Token::OperatorSub.display_string(), "OperatorSub");
    assert_eq!(Token::OperatorMul.display_string(), "OperatorMul");
    assert_eq!(Token::OperatorDiv.display_string(), "OperatorDiv");
    assert_eq!(Token::Error.display_string(), "Error");
}

#[test]
fn token_set_operations() {
    let mut a = TokenSet::new();
    assert!(a.is_empty());
    a.insert(3);
    a.insert(1);
    a.insert(3);
    assert_eq!(a.tokens, vec![1, 3]);
    let mut b = TokenSet::new();
    b.insert(2);
    b.insert(3);
    let u = a.union(&b);
    assert_eq!(u.tokens, vec![1, 2, 3]);
    let i = a.intersection(&b);
    assert_eq!(i.tokens, vec![3]);
    assert!(a.contains(1));
    assert!(!a.contains(2));
}

#[test]
fn lookahead_accepts() {
    let nil = Lookahead::Nil;
    assert!(nil.accepts(0));
    assert!(nil.accepts(99));
    assert!(!nil.has_anything_to_print());
    let mut ts = TokenSet::new();
    ts.insert(4);
    let la = Lookahead::TokenSet(ts);
    assert!(la.accepts(4));
    assert!(!la.accepts(5));
    assert!(la.has_anything_to_print());
    let empty = Lookahead::TokenSet(TokenSet::new());
    assert!(!empty.has_anything_to_print());
}

#[test]
fn grammar_wf_check_rejects_bad_indices() {
    let good = Grammar {
        terminals: vec!["a".to_string()],
        nonterminals: vec!["S".to_string()],
        productions: vec![Production {
            nonterminal: 0,
            symbols: vec![Symbol::Terminal(0)],
            action: 0,
        }],
        start_production: 0,
    };
    assert!(good.check_wf());
    let bad_symbol = Grammar {
        terminals: vec!["a".to_string()],
        nonterminals: vec!["S".to_string()],
        productions: vec![Production {
            nonterminal: 0,
            symbols: vec![Symbol::Terminal(1)],
            action: 0,
        }],
        start_production: 0,
    };
    assert!(!bad_symbol.check_wf());
    let bad_start = Grammar {
        terminals: vec![],
        nonterminals: vec!["S".to_string()],
        productions: vec![],
        start_production: 0,
    };
    assert!(!bad_start.check_wf());
}

#[test]
fn first_sets_follow_nullable_prefixes() {
    // S -> A "x"; A -> "a" | (empty): FIRST(A) = {"a"}, A nullable,
    // FIRST(S) = {"a", "x"} because the nullable A lets "x" through.
    let g = Grammar {
        terminals: vec!["a".to_string(), "x".to_string()],
        nonterminals: vec!["S".to_string(), "A".to_string()],
        productions: vec![
            Production {
                nonterminal: 0,
                symbols: vec![Symbol::Nonterminal(1), Symbol::Terminal(1)],
                action: 0,
            },
            Production { nonterminal: 1, symbols: vec![Symbol::Terminal(0)], action: 1 },
            Production { nonterminal: 1, symbols: vec![], action: 2 },
        ],
        start_production: 0,
    };
    assert!(g.check_wf());
    let fs = lalrpop::first::compute_first(&g);
    assert_eq!(fs.first[0].tokens, vec![0, 1]);
    assert_eq!(fs.first[1].tokens, vec![0]);
    assert!(!fs.nullable[0]);
    assert!(fs.nullable[1]);
}
