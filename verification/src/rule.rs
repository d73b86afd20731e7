//! Grammar symbols and production rules.

use vstd::prelude::*;

verus! {

/// Mathematical model of a grammar symbol: which kind it is, and the
/// characters of its name.
#[verifier::ext_equal]
pub ghost enum SymbolView {
    Nonterminal(Seq<char>),
    Terminal(Seq<char>),
}

/// A grammar symbol: a terminal (an input token kind) or a nonterminal
/// (a symbol defined by production rules). Identity is the pair
/// (kind, name).
#[derive(Hash, Ord, PartialOrd, Eq, PartialEq, Clone, Debug)]
pub enum Symbol {
    Nonterminal(String),
    Terminal(String),
}

impl View for Symbol {
    type V = SymbolView;

    open spec fn view(&self) -> SymbolView {
        match self {
            Symbol::Nonterminal(n) => SymbolView::Nonterminal(n@),
            Symbol::Terminal(n) => SymbolView::Terminal(n@),
        }
    }
}

impl Symbol {
    /// Copy of a symbol whose model provably equals the original's.
    pub fn dup(&self) -> (r: Symbol)
        ensures
            r@ == self@,
    {
        match self {
            Symbol::Nonterminal(n) => Symbol::Nonterminal(n.clone()),
            Symbol::Terminal(n) => Symbol::Terminal(n.clone()),
        }
    }

    /// Decides equality of the modeled values.
    pub fn sym_eq(&self, other: &Symbol) -> (r: bool)
        ensures
            r == (self@ == other@),
    {
        match (self, other) {
            (Symbol::Nonterminal(a), Symbol::Nonterminal(b)) => *a == *b,
            (Symbol::Terminal(a), Symbol::Terminal(b)) => *a == *b,
            _ => false,
        }
    }

    /// Whether this symbol is a terminal.
    pub fn is_terminal(&self) -> (r: bool)
        ensures
            r == (self@ is Terminal),
    {
        match self {
            Symbol::Terminal(_) => true,
            Symbol::Nonterminal(_) => false,
        }
    }

    /// Whether this symbol is a nonterminal.
    pub fn is_nonterminal(&self) -> (r: bool)
        ensures
            r == (self@ is Nonterminal),
    {
        match self {
            Symbol::Nonterminal(_) => true,
            Symbol::Terminal(_) => false,
        }
    }
}

/// The models of a sequence of symbols.
pub open spec fn sym_views(s: Seq<Symbol>) -> Seq<SymbolView> {
    s.map_values(|x: Symbol| x@)
}

/// The set of models of a sequence of symbols.
pub open spec fn sym_set(s: Seq<Symbol>) -> Set<SymbolView> {
    sym_views(s).to_set()
}

/// Membership in `sym_set` is existence of an index with that model.
pub proof fn lemma_sym_set_contains(s: Seq<Symbol>, v: SymbolView)
    ensures
        sym_set(s).contains(v) <==> exists|i: int| 0 <= i < s.len() && s[i]@ == v,
{
    if sym_set(s).contains(v) {
        let i = choose|i: int| 0 <= i < sym_views(s).len() && sym_views(s)[i] == v;
        assert(s[i]@ == v);
    }
    if exists|i: int| 0 <= i < s.len() && s[i]@ == v {
        let i = choose|i: int| 0 <= i < s.len() && s[i]@ == v;
        assert(sym_views(s)[i] == v);
        assert(sym_views(s).contains(v));
    }
}

/// Decides whether some symbol in `v` models the same value as `x`.
pub fn syms_contain(v: &Vec<Symbol>, x: &Symbol) -> (r: bool)
    ensures
        r == sym_set(v@).contains(x@),
{
    proof {
        lemma_sym_set_contains(v@, x@);
    }
    let mut i: usize = 0;
    while i < v.len()
        invariant
            0 <= i <= v.len(),
            forall|j: int| 0 <= j < i ==> v@[j]@ != x@,
        decreases v.len() - i,
    {
        if v[i].sym_eq(x) {
            proof {
                assert(sym_views(v@)[i as int] == x@);
                assert(sym_views(v@).contains(x@));
                assert(sym_set(v@).contains(x@));
            }
            return true;
        }
        i += 1;
    }
    false
}

/// Copy of a symbol vector whose models provably equal the originals'.
pub fn dup_symbols(v: &Vec<Symbol>) -> (r: Vec<Symbol>)
    ensures
        sym_views(r@) == sym_views(v@),
{
    let mut r: Vec<Symbol> = Vec::new();
    let mut i: usize = 0;
    while i < v.len()
        invariant
            0 <= i <= v.len(),
            r@.len() == i,
            forall|j: int| 0 <= j < i ==> r@[j]@ == v@[j]@,
        decreases v.len() - i,
    {
        r.push(v[i].dup());
        i += 1;
    }
    proof {
        assert(sym_views(r@) =~= sym_views(v@));
    }
    r
}

/// Mathematical model of a production rule.
#[verifier::ext_equal]
pub ghost struct RuleView {
    pub left: SymbolView,
    pub right: Seq<SymbolView>,
}

/// A production rule `left -> right`: a nonterminal on the left and an
/// ordered sequence of symbols on the right. Identity is structural
/// equality of (left, right).
#[derive(Hash, Ord, PartialOrd, Eq, PartialEq, Clone, Debug)]
pub struct Rule {
    pub left: Symbol,
    pub right: Vec<Symbol>,
}

impl View for Rule {
    type V = RuleView;

    open spec fn view(&self) -> RuleView {
        RuleView { left: self.left@, right: sym_views(self.right@) }
    }
}

impl Rule {
    /// A rule with the nonterminal named `left` on the left and an empty
    /// right-hand side, to be extended with `push_symbol`.
    pub fn new(left: &str) -> (r: Rule)
        ensures
            r@.left == SymbolView::Nonterminal(left@),
            r@.right == Seq::<SymbolView>::empty(),
    {
        let r = Rule { left: Symbol::Nonterminal(left.to_owned()), right: Vec::new() };
        proof {
            assert(r@.right =~= Seq::<SymbolView>::empty());
        }
        r
    }

    /// Appends one symbol to the right-hand side.
    pub fn push_symbol(self, symbol: Symbol) -> (r: Rule)
        ensures
            r@.left == self@.left,
            r@.right == self@.right.push(symbol@),
    {
        let ghost prev = self@.right;
        let ghost sv = symbol@;
        let mut this = self;
        this.right.push(symbol);
        proof {
            assert(sym_views(this.right@) =~= prev.push(sv));
        }
        this
    }

    /// Copy of a rule whose model provably equals the original's.
    pub fn dup(&self) -> (r: Rule)
        ensures
            r@ == self@,
    {
        let r = Rule { left: self.left.dup(), right: dup_symbols(&self.right) };
        proof {
            assert(r@ =~= self@);
        }
        r
    }

    /// Decides equality of the modeled values.
    pub fn rule_eq(&self, other: &Rule) -> (r: bool)
        ensures
            r == (self@ == other@),
    {
        if !self.left.sym_eq(&other.left) {
            return false;
        }
        if self.right.len() != other.right.len() {
            assert(self@.right.len() != other@.right.len());
            return false;
        }
        let mut i: usize = 0;
        while i < self.right.len()
            invariant
                0 <= i <= self.right.len(),
                self.right.len() == other.right.len(),
                self@.left == other@.left,
                forall|j: int| 0 <= j < i ==> self@.right[j] == other@.right[j],
            decreases self.right.len() - i,
        {
            if !self.right[i].sym_eq(&other.right[i]) {
                assert(self@.right[i as int] != other@.right[i as int]);
                return false;
            }
            i += 1;
        }
        proof {
            assert(self@.right =~= other@.right);
            assert(self@ =~= other@);
        }
        true
    }
}

/// The models of a sequence of rules.
pub open spec fn rule_views(s: Seq<Rule>) -> Seq<RuleView> {
    s.map_values(|x: Rule| x@)
}

/// Copy of a rule vector whose models provably equal the originals'.
pub fn dup_rules(v: &Vec<Rule>) -> (r: Vec<Rule>)
    ensures
        rule_views(r@) == rule_views(v@),
{
    let mut r: Vec<Rule> = Vec::new();
    let mut i: usize = 0;
    while i < v.len()
        invariant
            0 <= i <= v.len(),
            r@.len() == i,
            forall|j: int| 0 <= j < i ==> r@[j]@ == v@[j]@,
        decreases v.len() - i,
    {
        r.push(v[i].dup());
        i += 1;
    }
    proof {
        assert(rule_views(r@) =~= rule_views(v@));
    }
    r
}

/// The set of nonterminals standing on the left of some rule.
pub open spec fn lhs_set(rules: Seq<RuleView>) -> Set<SymbolView> {
    Set::new(|s: SymbolView| exists|k: int| 0 <= k < rules.len() && rules[k].left == s)
}

/// Every nonterminal occurring on a right-hand side of `rules` is defined,
/// that is, it stands on the left of some rule whose left side is in `dom`.
pub open spec fn rhs_defined_in(rules: Seq<RuleView>, dom: Set<SymbolView>) -> bool {
    forall|k: int, j: int|
        0 <= k < rules.len() && 0 <= j < rules[k].right.len() && rules[k].right[j] is Nonterminal
            ==> dom.contains(#[trigger] rules[k].right[j])
}

/// Every nonterminal on the given right-hand side is in `dom`.
pub open spec fn rule_rhs_defined(r: RuleView, dom: Set<SymbolView>) -> bool {
    forall|j: int|
        0 <= j < r.right.len() && r.right[j] is Nonterminal ==> dom.contains(#[trigger] r.right[j])
}

} // verus!
