use cfg::bnf::{from_str, to_string};
use cfg::ll1::{self, ParseError};
use cfg::util::{compute_first_of, compute_follow, compute_nullability};
use cfg::{epsilon, end_of_input, Cfg, ConstructionError, Rule, Symbol};

/// The grammar used throughout: S -> ABC, A -> ε | d, B -> e, C -> ε | f,
/// start = S -> ABC. Terminal indices: end-of-input 0, epsilon 1, d 2, e 3,
/// f 4.
fn canonical() -> (Cfg<cfg::Mutable>, [Symbol; 4], [Symbol; 3]) {
    let mut cfg = Cfg::new();
    let s = cfg.add_nonterminal();
    let a = cfg.add_nonterminal();
    let b = cfg.add_nonterminal();
    let c = cfg.add_nonterminal();

    let d = cfg.add_terminal();
    let e = cfg.add_terminal();
    let f = cfg.add_terminal();

    let rs = cfg.add_rule(s, &[a, b, c]).unwrap();
    let _ra1 = cfg.add_rule(a, &[epsilon()]).unwrap();
    let _ra2 = cfg.add_rule(a, &[d]).unwrap();
    let _rb = cfg.add_rule(b, &[e]).unwrap();
    let _rc1 = cfg.add_rule(c, &[epsilon()]).unwrap();
    let _rc2 = cfg.add_rule(c, &[f]).unwrap();
    cfg.set_start(rs);

    (cfg, [s, a, b, c], [d, e, f])
}

#[test]
fn first_is_correct() {
    let (cfg, [s, a, _b, c], _) = canonical();

    // FIRST(S) = {d, e}: S itself is not nullable, since B is not, so the
    // epsilon sentinel stays out.
    assert_eq!(
        compute_first_of(&cfg, &[s]),
        vec![false, false, true, true, false]
    );
    // FIRST(A C) = {epsilon, d, f}.
    assert_eq!(
        compute_first_of(&cfg, &[a, c]),
        vec![false, true, true, false, true]
    );
    // FIRST of the empty sequence is empty.
    assert_eq!(compute_first_of(&cfg, &[]), vec![false; 5]);
}

#[test]
fn from_str_is_correct() {
    let input = "S A B C
A
A d
B e
C
C f";
    let c = from_str(input);
    assert_eq!(
        "S -> ABC
A -> ε
A -> d
B -> e
C -> ε
C -> f",
        to_string(&c)
    );
}

#[test]
fn follow_is_correct() {
    let (cfg, _, _) = canonical();
    let mut cfg = cfg.freeze();
    compute_follow(&mut cfg);
    let follow = cfg.extra().follow.as_ref().unwrap();
    // Indexed [S, A, B, C]: {end}, {e}, {end, f}, {end}.
    let expected = vec![
        vec![true, false, false, false, false],
        vec![false, false, false, true, false],
        vec![true, false, false, false, true],
        vec![true, false, false, false, false],
    ];
    assert_eq!(follow.sets, expected);
}

#[test]
fn can_make_ll1_table() {
    let (cfg, _, _) = canonical();
    let mut cfg = cfg.freeze();
    let tab = ll1::generate_table(&mut cfg).unwrap();
    // Columns: end-of-input, epsilon, d, e, f. The epsilon column is never
    // assigned: only real lookaheads get cells.
    let expected_table = vec![
        vec![None, None, Some(Rule(0)), Some(Rule(0)), None],
        vec![None, None, Some(Rule(2)), Some(Rule(1)), None],
        vec![None, None, None, Some(Rule(3)), None],
        vec![Some(Rule(4)), None, None, None, Some(Rule(5))],
    ];
    assert_eq!(tab.table, expected_table);
}

#[test]
fn can_parse_ll1_string() {
    let (cfg, _, [_d, e, _f]) = canonical();
    let mut cfg = cfg.freeze();
    let tab = ll1::generate_table(&mut cfg).unwrap();
    let derivation = ll1::parse(&tab, &[e]).unwrap();
    assert_eq!(derivation, vec![Rule(0), Rule(1), Rule(3), Rule(4)]);
}

#[test]
fn table_start_and_rules_are_snapshots() {
    let (cfg, [s, ..], _) = canonical();
    let mut cfg = cfg.freeze();
    let tab = ll1::generate_table(&mut cfg).unwrap();
    assert_eq!(tab.start, s);
    assert_eq!(tab.rules.len(), 6);
}

#[test]
fn conflicting_alternatives_are_rejected() {
    // Two alternatives of A share the terminal d in FIRST: construction
    // must fail and report both rules and the cell, never pick one.
    let mut cfg = Cfg::new();
    let a = cfg.add_nonterminal();
    let d = cfg.add_terminal();
    let e = cfg.add_terminal();
    let r0 = cfg.add_rule(a, &[d]).unwrap();
    let _r1 = cfg.add_rule(a, &[d, e]).unwrap();
    cfg.set_start(r0);
    let mut cfg = cfg.freeze();
    let err = ll1::generate_table(&mut cfg).unwrap_err();
    assert_eq!(err.nonterminal, a);
    assert_eq!(err.terminal, d);
    let mut pair = [err.rule_a.0, err.rule_b.0];
    pair.sort();
    assert_eq!(pair, [0, 1]);
}

#[test]
fn parse_round_trip_reproduces_input() {
    // The tokens consumed by matching steps, concatenated, are exactly the
    // input sequence.
    let (cfg, _, [d, e, f]) = canonical();
    let mut cfg = cfg.freeze();
    let tab = ll1::generate_table(&mut cfg).unwrap();
    let (derivation, matched) = ll1::parse_with_matches(&tab, &[d, e, f]).unwrap();
    assert_eq!(matched, vec![d, e, f]);
    assert_eq!(derivation, vec![Rule(0), Rule(2), Rule(3), Rule(5)]);

    let (_, matched) = ll1::parse_with_matches(&tab, &[e, f]).unwrap();
    assert_eq!(matched, vec![e, f]);
}

#[test]
fn parse_rejects_bad_input() {
    let (cfg, _, [d, e, f]) = canonical();
    let mut cfg = cfg.freeze();
    let tab = ll1::generate_table(&mut cfg).unwrap();
    // No rule applies: f cannot begin a sentence.
    assert_eq!(ll1::parse(&tab, &[f]), Err(ParseError::NoApplicableRule));
    // B expects e after A's d.
    assert_eq!(ll1::parse(&tab, &[d, d]), Err(ParseError::NoApplicableRule));
    // Trailing input after a complete sentence.
    assert_eq!(
        ll1::parse(&tab, &[d, e, f, f]),
        Err(ParseError::UnexpectedToken)
    );
    // Input ends while a terminal is still expected.
    assert_eq!(ll1::parse(&tab, &[d]), Err(ParseError::NoApplicableRule));
    // The empty input is not a sentence: B derives no empty string.
    assert_eq!(ll1::parse(&tab, &[]), Err(ParseError::NoApplicableRule));
}

#[test]
fn follow_of_start_has_end_of_input() {
    // FOLLOW of the start rule's left-hand side always contains the
    // end-of-input sentinel.
    let (cfg, _, _) = canonical();
    let mut cfg = cfg.freeze();
    compute_follow(&mut cfg);
    assert!(cfg.extra().follow.as_ref().unwrap().sets[0][0]);

    let mut g = Cfg::new();
    let x = g.add_nonterminal();
    let y = g.add_terminal();
    let r = g.add_rule(x, &[y]).unwrap();
    g.set_start(r);
    let mut g = g.freeze();
    compute_follow(&mut g);
    assert!(g.extra().follow.as_ref().unwrap().sets[0][0]);
}

#[test]
fn adding_rules_only_grows_first() {
    // Monotonicity on concrete values: a new alternative for A adds f to
    // FIRST(A) and loses nothing.
    let (mut cfg, [_s, a, _b, _c], [_d, _e, f]) = canonical();
    let before = compute_first_of(&cfg, &[a]);
    cfg.add_rule(a, &[f]).unwrap();
    let after = compute_first_of(&cfg, &[a]);
    for t in 0..before.len() {
        assert!(!before[t] || after[t]);
    }
    assert_eq!(before, vec![false, true, true, false, false]);
    assert_eq!(after, vec![false, true, true, false, true]);
}

#[test]
fn nullability_finds_transitively_empty_nonterminals() {
    // X -> (empty), Y -> X X, Z -> y: X and Y are nullable, Z is not.
    let mut g = Cfg::new();
    let x = g.add_nonterminal();
    let yy = g.add_nonterminal();
    let z = g.add_nonterminal();
    let y = g.add_terminal();
    let r0 = g.add_rule(x, &[]).unwrap();
    let _r1 = g.add_rule(yy, &[x, x]).unwrap();
    let _r2 = g.add_rule(z, &[y]).unwrap();
    g.set_start(r0);
    compute_nullability(&mut g);
    let n = g.extra().nullability.as_ref().unwrap();
    assert_eq!(n.nullable, vec![true, true, false]);
}

#[test]
fn nullability_counts_epsilon_placeholders() {
    // The canonical grammar writes its empty productions with the epsilon
    // placeholder: nullability reads that the same way FIRST does, so A and
    // C are nullable while S is not (B never derives the empty string).
    let (mut cfg, _, _) = canonical();
    compute_nullability(&mut cfg);
    let n = cfg.extra().nullability.as_ref().unwrap();
    assert_eq!(n.nullable, vec![false, true, false, true]);
}

#[test]
fn construction_errors_are_reported() {
    let mut g = Cfg::new();
    let x = g.add_nonterminal();
    let y = g.add_terminal();
    assert_eq!(
        g.add_rule(y, &[x]),
        Err(ConstructionError::LhsNotNonterminal)
    );
    assert_eq!(
        g.add_rule(x, &[Symbol::Terminal(99)]),
        Err(ConstructionError::UnallocatedSymbol)
    );
    assert_eq!(
        g.add_rule(Symbol::Nonterminal(7), &[y]),
        Err(ConstructionError::UnallocatedSymbol)
    );
    assert_eq!(g.num_rules(), 0);
}

#[test]
fn symbols_pack_and_unpack() {
    let t = Symbol::Terminal(5);
    let n = Symbol::Nonterminal(5);
    let pt = t.pack();
    let pn = n.pack();
    assert!(pt.is_terminal());
    assert!(!pt.is_nonterminal());
    assert!(pn.is_nonterminal());
    assert_eq!(pt.to_index(), 5);
    assert_eq!(pn.to_index(), 5);
    assert_ne!(pt, pn);
    assert_eq!(pt.unpack(), t);
    assert_eq!(Symbol::from(pn), n);
    assert_eq!(epsilon(), Symbol::Terminal(1));
    assert_eq!(end_of_input(), Symbol::Terminal(0));
}

#[test]
fn grammar_accessors_report_counts() {
    let (cfg, _, [d, ..]) = canonical();
    assert_eq!(cfg.num_nonterminals(), 4);
    assert_eq!(cfg.num_terminals(), 5);
    assert_eq!(cfg.num_rules(), 6);
    let cfg = cfg.freeze();
    assert_eq!(cfg.start_rule(), 0);
    let (lhs, rhs) = cfg.get_rule(Rule(2)).unwrap();
    assert!(lhs.is_nonterminal());
    assert_eq!(rhs.len(), 1);
    assert_eq!(rhs[0].unpack(), d);
    assert!(cfg.get_rule(Rule(6)).is_none());
    assert_eq!(cfg.rules().len(), 6);
}

#[test]
fn from_str_loads_a_parseable_grammar() {
    let input = "S A B C
A
A d
B e
C
C f";
    let c = from_str(input);
    let mut c = c.freeze();
    let tab = cfg::ll1::generate_table(&mut c).unwrap();
    let derivation = cfg::ll1::parse(&tab, &[Symbol::Terminal(3)]).unwrap();
    assert_eq!(derivation, vec![Rule(0), Rule(1), Rule(3), Rule(4)]);
}

#[test]
fn from_str_of_empty_text_is_empty_grammar() {
    let c = from_str("");
    assert_eq!(c.num_rules(), 0);
    assert_eq!(c.num_nonterminals(), 0);
    assert_eq!(c.num_terminals(), 2);
}

#[test]
fn marpa_parser_is_a_placeholder() {
    let (cfg, _, _) = canonical();
    let cfg = cfg.freeze();
    cfg::marpa::parse(&cfg, &[]);
}
