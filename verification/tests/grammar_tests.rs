//! Grammar analysis behavior: rule building, FIRST sets, closures, and
//! deterministic construction.

use lr1_parser::lr1::Lr1Item;
use lr1_parser::lr1::Lr1ParserBuilder;
use lr1_parser::rule::Rule;
use lr1_parser::rule::Symbol;
use lr1_parser::tables::FirstSets;

fn nt(name: &str) -> Symbol {
    Symbol::Nonterminal(name.to_string())
}

fn t(name: &str) -> Symbol {
    Symbol::Terminal(name.to_string())
}

/// The arithmetic grammar:
/// `E -> E+T | E-T | T`, `T -> T*F | T/F | F`, `F -> (E) | num`.
fn arith_rules() -> Vec<Rule> {
    vec![
        Rule::new("E").push_symbol(nt("E")).push_symbol(t("+")).push_symbol(nt("T")),
        Rule::new("E").push_symbol(nt("E")).push_symbol(t("-")).push_symbol(nt("T")),
        Rule::new("E").push_symbol(nt("T")),
        Rule::new("T").push_symbol(nt("T")).push_symbol(t("*")).push_symbol(nt("F")),
        Rule::new("T").push_symbol(nt("T")).push_symbol(t("/")).push_symbol(nt("F")),
        Rule::new("T").push_symbol(nt("F")),
        Rule::new("F").push_symbol(t("(")).push_symbol(nt("E")).push_symbol(t(")")),
        Rule::new("F").push_symbol(t("num")),
    ]
}

fn arith_builder() -> Lr1ParserBuilder {
    let mut b = Lr1ParserBuilder::new();
    for r in arith_rules() {
        b.add_rule(r);
    }
    b.starting_symbol(nt("E"));
    b
}

fn sorted(mut v: Vec<Symbol>) -> Vec<Symbol> {
    v.sort();
    v
}

fn first_of(fs: &FirstSets, name: &str) -> Vec<Symbol> {
    fs.get(&nt(name)).expect("nonterminal must have a FIRST set").clone()
}

#[test]
fn rule_building_accumulates_symbols() {
    let r = Rule::new("E").push_symbol(nt("E")).push_symbol(t("+")).push_symbol(nt("T"));
    assert_eq!(r.left, nt("E"));
    assert_eq!(r.right, vec![nt("E"), t("+"), nt("T")]);
}

#[test]
fn first_sets_of_arithmetic_grammar() {
    let b = arith_builder();
    let fs = b.compute_first_sets();
    let expected = sorted(vec![t("num"), t("(")]);
    assert_eq!(sorted(first_of(&fs, "F")), expected);
    assert_eq!(sorted(first_of(&fs, "T")), sorted(first_of(&fs, "F")));
    assert_eq!(sorted(first_of(&fs, "E")), sorted(first_of(&fs, "T")));
}

fn item_set_eq(a: &[Lr1Item], b: &[Lr1Item]) -> bool {
    a.iter().all(|x| b.contains(x)) && b.iter().all(|x| a.contains(x))
}

#[test]
fn closure_propagates_lookaheads() {
    let b = arith_builder();
    let fs = b.compute_first_sets();
    // Kernel: E -> .T under end-of-input.
    let kernel = vec![Lr1Item(arith_rules()[2].clone(), 0, t("$"))];
    let c = b.compute_closure(kernel, &fs);
    // Nothing follows T, so T's rules inherit the item's own lookahead.
    assert!(c.contains(&Lr1Item(arith_rules()[3].clone(), 0, t("$"))));
    // In T -> .T*F the symbol after the leading T is the terminal "*".
    assert!(c.contains(&Lr1Item(arith_rules()[3].clone(), 0, t("*"))));
    // Through T -> .F under "*", F's rules get "*" as lookahead.
    assert!(c.contains(&Lr1Item(arith_rules()[7].clone(), 0, t("*"))));
    assert!(c.contains(&Lr1Item(arith_rules()[7].clone(), 0, t("$"))));
    // No item for a lookahead nobody propagates.
    assert!(!c.contains(&Lr1Item(arith_rules()[7].clone(), 0, t("("))));
}

#[test]
fn closure_is_idempotent_on_a_kernel() {
    let b = arith_builder();
    let fs = b.compute_first_sets();
    let kernel = vec![Lr1Item(arith_rules()[2].clone(), 0, t("$"))];
    let once = b.compute_closure(kernel, &fs);
    let twice = b.compute_closure(once.clone(), &fs);
    assert!(once.len() > 1);
    assert!(item_set_eq(&once, &twice));
}

#[test]
fn building_twice_gives_identical_tables() {
    let p1 = arith_builder().build().expect("grammar must build");
    let p2 = arith_builder().build().expect("grammar must build");
    assert_eq!(p1.action, p2.action);
    assert_eq!(p1.goto, p2.goto);
    assert_eq!(p1.rules, p2.rules);
}

#[test]
fn building_twice_gives_identical_automata() {
    let mut b1 = arith_builder();
    let aug = Rule::new("E'").push_symbol(nt("E"));
    b1.add_rule(aug.clone());
    let fs1 = b1.compute_first_sets();
    let (states1, trans1) = b1.build_automaton(&fs1, &aug);

    let mut b2 = arith_builder();
    b2.add_rule(aug.clone());
    let fs2 = b2.compute_first_sets();
    let (states2, trans2) = b2.build_automaton(&fs2, &aug);

    assert_eq!(states1.len(), states2.len());
    assert_eq!(states1, states2);
    assert_eq!(trans1, trans2);
}

#[test]
fn empty_production_fails_before_any_table() {
    let mut b = Lr1ParserBuilder::new();
    b.add_rule(Rule::new("E").push_symbol(t("num")));
    b.add_rule(Rule::new("E"));
    b.starting_symbol(nt("E"));
    assert_eq!(b.build().err(), Some(lr1_parser::BuildError::EmptyProduction));
}

#[test]
fn missing_start_symbol_fails() {
    let mut b = Lr1ParserBuilder::new();
    b.add_rule(Rule::new("E").push_symbol(t("num")));
    assert_eq!(b.build().err(), Some(lr1_parser::BuildError::NoStartSymbol));
}

#[test]
fn terminal_start_symbol_fails() {
    let mut b = Lr1ParserBuilder::new();
    b.add_rule(Rule::new("E").push_symbol(t("num")));
    b.starting_symbol(t("num"));
    assert_eq!(b.build().err(), Some(lr1_parser::BuildError::NoStartSymbol));
}

#[test]
fn build_appends_the_augmented_rule() {
    let mut b = arith_builder();
    let p = b.build().expect("grammar must build");
    assert_eq!(p.rules.len(), 9);
    let last = &p.rules[8];
    assert_eq!(last.left, nt("E'"));
    assert_eq!(last.right, vec![nt("E")]);
}
