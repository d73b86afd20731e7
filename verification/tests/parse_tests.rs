//! Shift-reduce parsing behavior against the arithmetic grammar's tables.

use lr1_parser::lr1::Lr1ParserBuilder;
use lr1_parser::parser::Parser;
use lr1_parser::rule::Rule;
use lr1_parser::rule::Symbol;
use lr1_parser::tables::ActionEntry;
use lr1_parser::tables::ActionTable;
use lr1_parser::tables::TransitionTable;
use lr1_parser::Action;
use lr1_parser::ParseError;

fn nt(name: &str) -> Symbol {
    Symbol::Nonterminal(name.to_string())
}

fn t(name: &str) -> Symbol {
    Symbol::Terminal(name.to_string())
}

fn arith_parser() -> Parser {
    let mut b = Lr1ParserBuilder::new();
    b.add_rule(Rule::new("E").push_symbol(nt("E")).push_symbol(t("+")).push_symbol(nt("T")));
    b.add_rule(Rule::new("E").push_symbol(nt("E")).push_symbol(t("-")).push_symbol(nt("T")));
    b.add_rule(Rule::new("E").push_symbol(nt("T")));
    b.add_rule(Rule::new("T").push_symbol(nt("T")).push_symbol(t("*")).push_symbol(nt("F")));
    b.add_rule(Rule::new("T").push_symbol(nt("T")).push_symbol(t("/")).push_symbol(nt("F")));
    b.add_rule(Rule::new("T").push_symbol(nt("F")));
    b.add_rule(Rule::new("F").push_symbol(t("(")).push_symbol(nt("E")).push_symbol(t(")")));
    b.add_rule(Rule::new("F").push_symbol(t("num")));
    b.starting_symbol(nt("E"));
    b.build().expect("the arithmetic grammar must build")
}

fn toks(ts: &[&str]) -> Vec<String> {
    ts.iter().map(|s| s.to_string()).collect()
}

/// The demo tokenizer: digit runs become one token, each operator or
/// parenthesis is a token of its own, whitespace separates.
fn tokenize(expr: &str) -> Vec<String> {
    let mut tokens = vec![];
    let mut num_buf = String::new();
    for ch in expr.chars() {
        match ch {
            '+' | '-' | '*' | '/' | '(' | ')' => {
                if !num_buf.is_empty() {
                    tokens.push(num_buf.clone());
                    num_buf.clear();
                }
                tokens.push(ch.to_string());
            }
            ch if ch.is_ascii_digit() => num_buf.push(ch),
            ch if ch.is_whitespace() => {
                if !num_buf.is_empty() {
                    tokens.push(num_buf.clone());
                    num_buf.clear();
                }
            }
            _ => panic!("unexpected character {:?}", ch),
        }
    }
    if !num_buf.is_empty() {
        tokens.push(num_buf.clone());
    }
    tokens
}

#[test]
fn accepts_num_plus_num_times_num() {
    let p = arith_parser();
    let trace = p.parse(toks(&["num", "+", "num", "*", "num"])).expect("must accept");
    assert_eq!(trace.last(), Some(&Action::Accept));
}

#[test]
fn accepts_tokenized_expression() {
    let p = arith_parser();
    let tokens = tokenize("(12+(34/56)-78)");
    assert_eq!(
        tokens,
        toks(&["(", "12", "+", "(", "34", "/", "56", ")", "-", "78", ")"])
    );
    let trace = p.parse(tokens).expect("must accept");
    assert_eq!(trace.last(), Some(&Action::Accept));
}

#[test]
fn single_num_reduces_through_every_layer() {
    let p = arith_parser();
    let trace = p.parse(toks(&["num"])).expect("must accept");
    assert!(matches!(trace[0], Action::Shift(_)));
    let reduces: Vec<usize> = trace
        .iter()
        .filter_map(|a| match a {
            Action::Reduce(r) => Some(*r),
            _ => None,
        })
        .collect();
    // F -> num, then T -> F, then E -> T, in that order.
    assert_eq!(reduces, vec![7, 5, 2]);
    assert_eq!(trace.last(), Some(&Action::Accept));
}

#[test]
fn two_bare_nums_are_rejected_after_the_first_shift() {
    let p = arith_parser();
    let first_shift = match p.parse(toks(&["num"])).expect("must accept")[0] {
        Action::Shift(j) => j,
        _ => panic!("the first action on a num must be a shift"),
    };
    let err = p.parse(toks(&["num", "num"])).expect_err("must reject");
    assert_eq!(
        err,
        ParseError::NoAction { state: first_shift, token: "num".to_string() }
    );
}

#[test]
fn numeric_classification_follows_integer_parsing() {
    let p = arith_parser();
    // Leading plus and leading zeros still parse as integers.
    assert!(p.parse(toks(&["+12"])).is_ok());
    assert!(p.parse(toks(&["007"])).is_ok());
    // A value beyond 64 bits is not an integer literal, so it is an
    // unknown terminal.
    let err = p.parse(toks(&["99999999999999999999999"])).expect_err("must reject");
    assert!(matches!(err, ParseError::NoAction { state: 0, .. }));
    // An empty token is not an integer literal either.
    let err = p.parse(toks(&[""])).expect_err("must reject");
    assert!(matches!(err, ParseError::NoAction { .. }));
}

#[test]
fn empty_input_is_rejected_at_the_start_state() {
    let p = arith_parser();
    let err = p.parse(Vec::new()).expect_err("must reject");
    assert_eq!(err, ParseError::NoAction { state: 0, token: "$".to_string() });
}

#[test]
fn hand_made_tables_that_underflow_are_reported() {
    let mut action = ActionTable::new();
    action.insert(0, t("num"), Action::Reduce(0));
    let p = Parser {
        action,
        goto: TransitionTable::new(),
        rules: vec![Rule::new("A").push_symbol(t("num"))],
    };
    assert_eq!(p.parse(toks(&["num"])).expect_err("must fail"), ParseError::InconsistentTables);
}

#[test]
fn hand_made_tables_with_bad_rule_index_are_reported() {
    let entries = vec![ActionEntry { state: 0, terminal: t("num"), action: Action::Reduce(5) }];
    let p = Parser {
        action: ActionTable { entries },
        goto: TransitionTable::new(),
        rules: vec![],
    };
    assert_eq!(p.parse(toks(&["num"])).expect_err("must fail"), ParseError::InconsistentTables);
}
