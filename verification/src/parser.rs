//! The table-driven shift-reduce parse driver.

use vstd::arithmetic::div_mod::lemma_fundamental_div_mod;
use vstd::prelude::*;
use vstd::string::StrSliceExecFns;

use crate::rule::rule_views;
use crate::rule::Rule;
use crate::rule::RuleView;
use crate::rule::Symbol;
use crate::rule::SymbolView;
use crate::tables::ActionTable;
use crate::tables::TransitionTable;

verus! {

/// Mathematical model of a parse action.
#[verifier::ext_equal]
pub ghost enum ActionView {
    Reduce(int),
    Shift(int),
    Accept,
}

/// One entry of the action table: reduce by a rule, shift to a state, or
/// accept the input.
#[derive(Clone, Copy, PartialEq, Eq, Debug)]
pub enum Action {
    Reduce(usize),
    Shift(usize),
    Accept,
}

impl View for Action {
    type V = ActionView;

    open spec fn view(&self) -> ActionView {
        match self {
            Action::Reduce(r) => ActionView::Reduce(*r as int),
            Action::Shift(s) => ActionView::Shift(*s as int),
            Action::Accept => ActionView::Accept,
        }
    }
}

/// Why a parse did not run to acceptance.
#[derive(Clone, PartialEq, Eq, Debug)]
pub enum ParseError {
    /// No action is recorded for the current state and token: the
    /// ordinary syntax-error outcome, reporting both.
    NoAction { state: usize, token: String },
    /// The tables sent the driver somewhere impossible: a rule index out
    /// of range, a stack too short for a reduction, a missing goto
    /// entry, or a cursor past the end marker. Tables built by the
    /// builder do not show this in practice; it stands for the
    /// self-consistency failures a hand-made table can produce.
    InconsistentTables,
}

/// A placeholder for a future concrete parse-tree representation.
pub enum ParseTree {
    Nonterminal(),
}

/// The models of a token sequence.
pub open spec fn token_views(s: Seq<String>) -> Seq<Seq<char>> {
    s.map_values(|t: String| t@)
}

/// The models of a recorded action sequence.
pub open spec fn action_views(s: Seq<Action>) -> Seq<ActionView> {
    s.map_values(|a: Action| a@)
}

/// The models of a state stack.
pub open spec fn stack_views(s: Seq<usize>) -> Seq<int> {
    s.map_values(|u: usize| u as int)
}

/// The value of a digit sequence read in base ten.
pub open spec fn digits_val(s: Seq<char>) -> int
    decreases s.len(),
{
    if s.len() == 0 {
        0
    } else {
        digits_val(s.drop_last()) * 10 + (s.last() as int - 48)
    }
}

/// Every character is an ASCII digit.
pub open spec fn all_digits(s: Seq<char>) -> bool {
    forall|i: int| 0 <= i < s.len() ==> 48 <= (#[trigger] s[i]) as int <= 57
}

/// The digit part of a candidate integer literal: everything after an
/// optional leading plus sign.
pub open spec fn digit_part(s: Seq<char>) -> Seq<char> {
    if s.len() > 0 && s[0] == '+' {
        s.subrange(1, s.len() as int)
    } else {
        s
    }
}

/// The token parses entirely as a non-negative 64-bit integer literal:
/// an optional plus sign, then one or more digits, within range.
pub open spec fn is_num_text(s: Seq<char>) -> bool {
    &&& digit_part(s).len() > 0
    &&& all_digits(digit_part(s))
    &&& digits_val(digit_part(s)) <= u64::MAX
}

/// A token's terminal: `"num"` for an integer literal, otherwise the
/// token text itself.
pub open spec fn classify_view(s: Seq<char>) -> SymbolView {
    if is_num_text(s) {
        SymbolView::Terminal("num"@)
    } else {
        SymbolView::Terminal(s)
    }
}

/// The value of a digit sequence is nonnegative and no digit prefix
/// exceeds the whole.
pub proof fn lemma_digits_prefix_le(s: Seq<char>, j: int)
    requires
        all_digits(s),
        0 <= j <= s.len(),
    ensures
        0 <= digits_val(s.subrange(0, j)) <= digits_val(s),
    decreases s.len(),
{
    if s.len() == 0 {
        assert(s.subrange(0, j) =~= s);
    } else if j == s.len() {
        assert(s.subrange(0, j) =~= s);
        lemma_digits_prefix_le(s.drop_last(), s.len() - 1);
        assert(s.drop_last().subrange(0, s.len() - 1) =~= s.drop_last());
    } else {
        assert(s.drop_last().subrange(0, j) =~= s.subrange(0, j));
        assert(all_digits(s.drop_last())) by {
            assert(forall|i: int| 0 <= i < s.len() - 1 ==> s.drop_last()[i] == #[trigger] s[i]);
        }
        lemma_digits_prefix_le(s.drop_last(), j);
        assert(digits_val(s.drop_last()) * 10 >= digits_val(s.drop_last()));
        assert(48 <= s.last() as int <= 57);
    }
}

/// Decides whether a token is an integer literal, scanning its
/// characters and tracking the value with an overflow guard.
#[verifier::loop_isolation(false)]
pub fn is_num_token(s: &str) -> (r: bool)
    ensures
        r == is_num_text(s@),
{
    let n = s.unicode_len();
    let mut start: usize = 0;
    if n > 0 && s.get_char(0) == '+' {
        start = 1;
    }
    let ghost d = digit_part(s@);
    proof {
        assert(d =~= s@.subrange(start as int, n as int));
    }
    if start >= n {
        return false;
    }
    let mut val: u64 = 0;
    let mut i: usize = start;
    while i < n
        invariant
            start <= i <= n,
            all_digits(d.subrange(0, i - start)),
            val as int == digits_val(d.subrange(0, i - start)),
        decreases n - i,
    {
        let c = s.get_char(i);
        let ghost dpre = d.subrange(0, i - start);
        proof {
            assert(d[i - start] == c);
        }
        if !(c >= '0' && c <= '9') {
            proof {
                assert(48 > c as int || c as int > 57);
            }
            return false;
        }
        let dv = (c as u32 - 48) as u64;
        proof {
            assert(d.subrange(0, i + 1 - start) =~= dpre.push(c));
            assert(d.subrange(0, i + 1 - start).drop_last() =~= dpre);
            assert(digits_val(d.subrange(0, i + 1 - start)) == val as int * 10 + dv as int);
        }
        if val > (u64::MAX - dv) / 10 {
            proof {
                lemma_fundamental_div_mod((u64::MAX - dv) as int, 10);
                assert(val as int * 10 + dv as int > u64::MAX);
                if all_digits(d) {
                    lemma_digits_prefix_le(d, i + 1 - start);
                    assert(d.subrange(0, d.len() as int) =~= d);
                }
            }
            return false;
        }
        proof {
            lemma_fundamental_div_mod((u64::MAX - dv) as int, 10);
            assert(val as int * 10 + dv as int <= u64::MAX);
        }
        val = val * 10 + dv;
        i += 1;
    }
    proof {
        assert(d.subrange(0, n - start) =~= d);
    }
    true
}

/// Classifies a token: the terminal `"num"` if the text is an integer
/// literal, otherwise a terminal spelled exactly like the text.
pub fn classify(token: &String) -> (r: Symbol)
    ensures
        r@ == classify_view(token@),
{
    if is_num_token(token.as_str()) {
        Symbol::Terminal("num".to_owned())
    } else {
        Symbol::Terminal(token.clone())
    }
}

/// A driver configuration: the state stack and the input cursor.
#[verifier::ext_equal]
pub ghost struct ConfigView {
    pub stack: Seq<int>,
    pub pos: int,
}

/// What one driver step does.
#[verifier::ext_equal]
pub ghost enum StepView {
    Accepted,
    Rejected { state: int, token: Seq<char> },
    Wedged,
    Next { config: ConfigView, act: ActionView },
}

/// How a parse ends.
#[verifier::ext_equal]
pub ghost enum OutcomeView {
    Accepted,
    Rejected { state: int, token: Seq<char> },
    Wedged,
}

/// The initial configuration: state stack `[0]`, cursor at the start.
pub open spec fn init_config() -> ConfigView {
    ConfigView { stack: seq![0], pos: 0 }
}

/// One deterministic step of the shift-reduce driver: look up the action
/// for the current state and classified token; shift pushes the target
/// state and advances, reduce pops one state per right-hand-side symbol
/// and follows the goto edge, accept stops. A missing action rejects the
/// input; an impossible situation wedges.
pub open spec fn spec_step(
    am: Map<(int, SymbolView), ActionView>,
    gm: Map<(int, SymbolView), int>,
    rules: Seq<RuleView>,
    input: Seq<Seq<char>>,
    c: ConfigView,
) -> StepView {
    if c.stack.len() == 0 || !(0 <= c.pos < input.len()) {
        StepView::Wedged
    } else {
        let s = c.stack.last();
        let tok = input[c.pos];
        let term = classify_view(tok);
        if !am.dom().contains((s, term)) {
            StepView::Rejected { state: s, token: tok }
        } else {
            match am[(s, term)] {
                ActionView::Shift(j) => StepView::Next {
                    config: ConfigView { stack: c.stack.push(j), pos: c.pos + 1 },
                    act: ActionView::Shift(j),
                },
                ActionView::Reduce(r) => if !(0 <= r < rules.len()) {
                    StepView::Wedged
                } else if c.stack.len() <= rules[r].right.len() {
                    StepView::Wedged
                } else {
                    let popped = c.stack.subrange(
                        0,
                        c.stack.len() - rules[r].right.len(),
                    );
                    if !gm.dom().contains((popped.last(), rules[r].left)) {
                        StepView::Wedged
                    } else {
                        StepView::Next {
                            config: ConfigView {
                                stack: popped.push(gm[(popped.last(), rules[r].left)]),
                                pos: c.pos,
                            },
                            act: ActionView::Reduce(r),
                        }
                    }
                },
                ActionView::Accept => StepView::Accepted,
            }
        }
    }
}

/// Runs the driver for at most `fuel` steps, recording the actions
/// taken; `None` when the fuel runs out first.
pub open spec fn spec_run(
    am: Map<(int, SymbolView), ActionView>,
    gm: Map<(int, SymbolView), int>,
    rules: Seq<RuleView>,
    input: Seq<Seq<char>>,
    c: ConfigView,
    fuel: nat,
) -> Option<(Seq<ActionView>, OutcomeView)>
    decreases fuel,
{
    if fuel == 0 {
        None
    } else {
        match spec_step(am, gm, rules, input, c) {
            StepView::Accepted => Some((seq![ActionView::Accept], OutcomeView::Accepted)),
            StepView::Rejected { state, token } => Some(
                (Seq::empty(), OutcomeView::Rejected { state, token }),
            ),
            StepView::Wedged => Some((Seq::empty(), OutcomeView::Wedged)),
            StepView::Next { config, act } => match spec_run(
                am,
                gm,
                rules,
                input,
                config,
                (fuel - 1) as nat,
            ) {
                None => None,
                Some(ta) => Some((seq![act] + ta.0, ta.1)),
            },
        }
    }
}

/// The driver is deterministic: any two fuels that suffice to finish
/// yield the same trace and outcome.
pub proof fn lemma_run_unique(
    am: Map<(int, SymbolView), ActionView>,
    gm: Map<(int, SymbolView), int>,
    rules: Seq<RuleView>,
    input: Seq<Seq<char>>,
    c: ConfigView,
    f1: nat,
    f2: nat,
)
    requires
        spec_run(am, gm, rules, input, c, f1) is Some,
        spec_run(am, gm, rules, input, c, f2) is Some,
    ensures
        spec_run(am, gm, rules, input, c, f1) == spec_run(am, gm, rules, input, c, f2),
    decreases f1,
{
    match spec_step(am, gm, rules, input, c) {
        StepView::Next { config, act } => {
            lemma_run_unique(am, gm, rules, input, config, (f1 - 1) as nat, (f2 - 1) as nat);
        },
        _ => {},
    }
}

/// A trace prefix glued onto a run result.
pub open spec fn prepend_run(
    tr: Seq<ActionView>,
    r: Option<(Seq<ActionView>, OutcomeView)>,
) -> Option<(Seq<ActionView>, OutcomeView)> {
    match r {
        None => None,
        Some(ta) => Some((tr + ta.0, ta.1)),
    }
}

/// Prefixing an empty trace changes nothing.
pub proof fn lemma_prepend_empty(r: Option<(Seq<ActionView>, OutcomeView)>)
    ensures
        prepend_run(Seq::empty(), r) == r,
{
    if let Some(ta) = r {
        assert(Seq::<ActionView>::empty() + ta.0 =~= ta.0);
    }
}

/// Prefixing twice is prefixing the concatenation.
pub proof fn lemma_prepend_assoc(
    a: Seq<ActionView>,
    b: Seq<ActionView>,
    r: Option<(Seq<ActionView>, OutcomeView)>,
)
    ensures
        prepend_run(a, prepend_run(b, r)) == prepend_run(a + b, r),
{
    if let Some(ta) = r {
        assert(a + (b + ta.0) =~= (a + b) + ta.0);
    }
}

/// One more unit of fuel runs one step and then the rest.
pub proof fn lemma_run_step(
    am: Map<(int, SymbolView), ActionView>,
    gm: Map<(int, SymbolView), int>,
    rules: Seq<RuleView>,
    input: Seq<Seq<char>>,
    c: ConfigView,
    f: nat,
)
    requires
        spec_step(am, gm, rules, input, c) is Next,
    ensures
        spec_run(am, gm, rules, input, c, (f + 1) as nat) == prepend_run(
            seq![spec_step(am, gm, rules, input, c)->Next_act],
            spec_run(am, gm, rules, input, spec_step(am, gm, rules, input, c)->Next_config, f),
        ),
{
}

/// The parser: deterministic action and goto tables over the grammar's
/// rules, produced once by the builder and never changed afterwards.
pub struct Parser {
    pub action: ActionTable,
    pub goto: TransitionTable,
    pub rules: Vec<Rule>,
}

impl Parser {
    /// Runs a shift-reduce parse of `input` against the tables and
    /// returns the sequence of actions taken, ending in `Accept`; or the
    /// rejection that stopped it. The end-of-input marker `"$"` is
    /// appended before parsing, and each token is classified as the
    /// terminal `"num"` if it is an integer literal, else as itself.
    #[verifier::loop_isolation(false)]
    pub fn parse(&self, input: Vec<String>) -> (r: Result<Vec<Action>, ParseError>)
        requires
            self.action.wf(),
            self.goto.wf(),
        ensures
            r matches Ok(tr) ==> exists|fuel: nat|
                spec_run(
                    self.action@,
                    self.goto@,
                    rule_views(self.rules@),
                    token_views(input@).push("$"@),
                    init_config(),
                    fuel,
                ) == Some((action_views(tr@), OutcomeView::Accepted)),
            r matches Err(ParseError::NoAction { state, token }) ==> exists|fuel: nat|
                (#[trigger] spec_run(
                    self.action@,
                    self.goto@,
                    rule_views(self.rules@),
                    token_views(input@).push("$"@),
                    init_config(),
                    fuel,
                )) matches Some(ta) && ta.1 == (OutcomeView::Rejected {
                    state: state as int,
                    token: token@,
                }),
            r matches Err(ParseError::InconsistentTables) ==> (exists|fuel: nat|
                (#[trigger] spec_run(
                    self.action@,
                    self.goto@,
                    rule_views(self.rules@),
                    token_views(input@).push("$"@),
                    init_config(),
                    fuel,
                )) matches Some(ta) && ta.1 == OutcomeView::Wedged) || spec_run(
                self.action@,
                self.goto@,
                rule_views(self.rules@),
                token_views(input@).push("$"@),
                init_config(),
                usize::MAX as nat,
            ) is None,
    {
        let ghost am = self.action@;
        let ghost gm = self.goto@;
        let ghost rl = rule_views(self.rules@);
        let ghost inp = token_views(input@).push("$"@);
        let mut input = input;
        input.push("$".to_owned());
        proof {
            assert(token_views(input@) =~= inp);
        }
        let mut state_stack: Vec<usize> = Vec::new();
        state_stack.push(0);
        let mut trace: Vec<Action> = Vec::new();
        let mut index: usize = 0;
        let ghost mut steps: nat = 0;
        let mut fuel: usize = usize::MAX;
        proof {
            assert(stack_views(state_stack@) =~= seq![0int]);
            assert(action_views(trace@) =~= Seq::<ActionView>::empty());
            assert forall|f: nat|
                spec_run(am, gm, rl, inp, init_config(), (steps + f) as nat) == prepend_run(
                    action_views(trace@),
                    spec_run(
                        am,
                        gm,
                        rl,
                        inp,
                        ConfigView { stack: stack_views(state_stack@), pos: index as int },
                        f,
                    ),
                ) by {
                lemma_prepend_empty(
                    spec_run(
                        am,
                        gm,
                        rl,
                        inp,
                        ConfigView { stack: stack_views(state_stack@), pos: index as int },
                        f,
                    ),
                );
            }
        }
        while fuel > 0
            invariant
                state_stack@.len() >= 1,
                steps + fuel == usize::MAX,
                forall|f: nat|
                    spec_run(am, gm, rl, inp, init_config(), (steps + f) as nat) == prepend_run(
                        action_views(trace@),
                        spec_run(
                            am,
                            gm,
                            rl,
                            inp,
                            ConfigView { stack: stack_views(state_stack@), pos: index as int },
                            f,
                        ),
                    ),
            decreases fuel,
        {
            let ghost cfg = ConfigView { stack: stack_views(state_stack@), pos: index as int };
            if index >= input.len() {
                proof {
                    assert(spec_step(am, gm, rl, inp, cfg) == StepView::Wedged);
                    assert(spec_run(am, gm, rl, inp, cfg, 1nat) == Some(
                        (Seq::<ActionView>::empty(), OutcomeView::Wedged),
                    ));
                    assert(spec_run(am, gm, rl, inp, init_config(), (steps + 1) as nat) == Some(
                        (action_views(trace@) + Seq::<ActionView>::empty(), OutcomeView::Wedged),
                    ));
                }
                return Err(ParseError::InconsistentTables);
            }
            let s = state_stack[state_stack.len() - 1];
            proof {
                assert(stack_views(state_stack@).last() == s as int);
            }
            let term = classify(&input[index]);
            match self.action.get(s, &term) {
                None => {
                    let tok_owned = input[index].clone();
                    proof {
                        assert(spec_step(am, gm, rl, inp, cfg) == (StepView::Rejected {
                            state: s as int,
                            token: inp[index as int],
                        }));
                        assert(spec_run(am, gm, rl, inp, init_config(), (steps + 1) as nat)
                            == Some(
                            (
                                action_views(trace@) + Seq::<ActionView>::empty(),
                                OutcomeView::Rejected { state: s as int, token: inp[index as int] },
                            ),
                        ));
                        assert(action_views(trace@) + Seq::<ActionView>::empty() =~= action_views(
                            trace@,
                        ));
                        assert(spec_run(am, gm, rl, inp, init_config(), (steps + 1) as nat)
                            == Some(
                            (
                                action_views(trace@),
                                OutcomeView::Rejected { state: s as int, token: inp[index as int] },
                            ),
                        ));
                        assert(tok_owned@ == inp[index as int]);
                        assert(spec_run(am, gm, rl, inp, init_config(), (steps + 1) as nat)
                            == Some(
                            (
                                action_views(trace@),
                                OutcomeView::Rejected { state: s as int, token: tok_owned@ },
                            ),
                        ));
                    }
                    return Err(ParseError::NoAction { state: s, token: tok_owned });
                },
                Some(Action::Shift(j)) => {
                    let ghost step = spec_step(am, gm, rl, inp, cfg);
                    proof {
                        assert(am[(s as int, term@)] == ActionView::Shift(j as int));
                        assert(step == (StepView::Next {
                            config: ConfigView {
                                stack: cfg.stack.push(j as int),
                                pos: cfg.pos + 1,
                            },
                            act: ActionView::Shift(j as int),
                        }));
                    }
                    state_stack.push(j);
                    trace.push(Action::Shift(j));
                    index += 1;
                    proof {
                        let cfg2 = ConfigView {
                            stack: stack_views(state_stack@),
                            pos: index as int,
                        };
                        assert(stack_views(state_stack@) =~= cfg.stack.push(j as int));
                        assert(cfg2 == step->Next_config);
                        assert forall|f: nat|
                            spec_run(am, gm, rl, inp, init_config(), ((steps + 1) + f) as nat)
                                == prepend_run(
                                action_views(trace@),
                                spec_run(am, gm, rl, inp, cfg2, f),
                            ) by {
                            lemma_run_step(am, gm, rl, inp, cfg, f);
                            lemma_prepend_assoc(
                                action_views(trace@.drop_last()),
                                seq![ActionView::Shift(j as int)],
                                spec_run(am, gm, rl, inp, cfg2, f),
                            );
                            assert(action_views(trace@.drop_last()) + seq![
                                ActionView::Shift(j as int),
                            ] =~= action_views(trace@));
                            assert((steps + (1 + f)) as nat == ((steps + 1) + f) as nat);
                        }
                        steps = steps + 1;
                    }
                },
                Some(Action::Reduce(ridx)) => {
                    let ghost step = spec_step(am, gm, rl, inp, cfg);
                    proof {
                        assert(am[(s as int, term@)] == ActionView::Reduce(ridx as int));
                    }
                    if ridx >= self.rules.len() {
                        proof {
                            assert(step == StepView::Wedged);
                            assert(spec_run(am, gm, rl, inp, init_config(), (steps + 1) as nat)
                                == Some(
                                (
                                    action_views(trace@) + Seq::<ActionView>::empty(),
                                    OutcomeView::Wedged,
                                ),
                            ));
                        }
                        return Err(ParseError::InconsistentTables);
                    }
                    let klen = self.rules[ridx].right.len();
                    proof {
                        assert(rl[ridx as int].right.len() == klen as int);
                    }
                    if state_stack.len() <= klen {
                        proof {
                            assert(step == StepView::Wedged);
                            assert(spec_run(am, gm, rl, inp, init_config(), (steps + 1) as nat)
                                == Some(
                                (
                                    action_views(trace@) + Seq::<ActionView>::empty(),
                                    OutcomeView::Wedged,
                                ),
                            ));
                        }
                        return Err(ParseError::InconsistentTables);
                    }
                    let ghost pre_stack = state_stack@;
                    let mut pk: usize = 0;
                    while pk < klen
                        invariant
                            0 <= pk <= klen,
                            state_stack@ == pre_stack.subrange(0, pre_stack.len() - pk),
                        decreases klen - pk,
                    {
                        proof {
                            assert(state_stack@.drop_last() =~= pre_stack.subrange(
                                0,
                                pre_stack.len() - (pk + 1),
                            ));
                        }
                        state_stack.pop();
                        pk += 1;
                    }
                    let ghost popped = cfg.stack.subrange(0, cfg.stack.len() - klen);
                    proof {
                        assert(stack_views(state_stack@) =~= popped);
                    }
                    let s2 = state_stack[state_stack.len() - 1];
                    proof {
                        assert(popped.last() == s2 as int);
                    }
                    let left = self.rules[ridx].left.dup();
                    proof {
                        assert(left@ == rl[ridx as int].left);
                    }
                    match self.goto.get(s2, &left) {
                        None => {
                            proof {
                                assert(step == StepView::Wedged);
                                assert(spec_run(
                                    am,
                                    gm,
                                    rl,
                                    inp,
                                    init_config(),
                                    (steps + 1) as nat,
                                ) == Some(
                                    (
                                        action_views(trace@) + Seq::<ActionView>::empty(),
                                        OutcomeView::Wedged,
                                    ),
                                ));
                            }
                            return Err(ParseError::InconsistentTables);
                        },
                        Some(tgt) => {
                            proof {
                                assert(step == (StepView::Next {
                                    config: ConfigView {
                                        stack: popped.push(tgt as int),
                                        pos: cfg.pos,
                                    },
                                    act: ActionView::Reduce(ridx as int),
                                }));
                            }
                            state_stack.push(tgt);
                            trace.push(Action::Reduce(ridx));
                            proof {
                                let cfg2 = ConfigView {
                                    stack: stack_views(state_stack@),
                                    pos: index as int,
                                };
                                assert(stack_views(state_stack@) =~= popped.push(tgt as int));
                                assert(cfg2 == step->Next_config);
                                assert forall|f: nat|
                                    spec_run(
                                        am,
                                        gm,
                                        rl,
                                        inp,
                                        init_config(),
                                        ((steps + 1) + f) as nat,
                                    ) == prepend_run(
                                        action_views(trace@),
                                        spec_run(am, gm, rl, inp, cfg2, f),
                                    ) by {
                                    lemma_run_step(am, gm, rl, inp, cfg, f);
                                    lemma_prepend_assoc(
                                        action_views(trace@.drop_last()),
                                        seq![ActionView::Reduce(ridx as int)],
                                        spec_run(am, gm, rl, inp, cfg2, f),
                                    );
                                    assert(action_views(trace@.drop_last()) + seq![
                                        ActionView::Reduce(ridx as int),
                                    ] =~= action_views(trace@));
                                    assert((steps + (1 + f)) as nat == ((steps + 1) + f) as nat);
                                }
                                steps = steps + 1;
                            }
                        },
                    }
                },
                Some(Action::Accept) => {
                    proof {
                        assert(spec_step(am, gm, rl, inp, cfg) == StepView::Accepted);
                        assert(spec_run(am, gm, rl, inp, cfg, 1nat) == Some(
                            (seq![ActionView::Accept], OutcomeView::Accepted),
                        ));
                    }
                    trace.push(Action::Accept);
                    proof {
                        assert(action_views(trace@) =~= action_views(trace@.drop_last()) + seq![
                            ActionView::Accept,
                        ]);
                        assert(spec_run(am, gm, rl, inp, init_config(), (steps + 1) as nat)
                            == Some((action_views(trace@), OutcomeView::Accepted)));
                    }
                    return Ok(trace);
                },
            }
            fuel -= 1;
        }
        proof {
            let cfg = ConfigView { stack: stack_views(state_stack@), pos: index as int };
            assert(spec_run(am, gm, rl, inp, init_config(), (steps + 0) as nat) == prepend_run(
                action_views(trace@),
                spec_run(am, gm, rl, inp, cfg, 0nat),
            ));
            assert(spec_run(am, gm, rl, inp, init_config(), usize::MAX as nat) is None);
        }
        Err(ParseError::InconsistentTables)
    }
}

} // verus!
