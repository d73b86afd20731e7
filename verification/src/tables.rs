//! Keyed tables backing the analysis: FIRST sets, the automaton's
//! transition map, and the action table.
//!
//! Each table is a vector of entries with pairwise-distinct keys, modeled
//! as a `Map` built by inserting the entries in order; with distinct keys
//! that map holds exactly the entries.

use vstd::pervasive::unreached;
use vstd::pervasive::VecAdditionalExecFns;
use vstd::prelude::*;

use crate::parser::Action;
use crate::parser::ActionView;
use crate::rule::sym_set;
use crate::rule::sym_views;
use crate::rule::Symbol;
use crate::rule::SymbolView;

verus! {

/// One nonterminal together with the terminals found for its FIRST set.
#[derive(PartialEq, Eq, Debug)]
pub struct FirstEntry {
    pub key: Symbol,
    pub terminals: Vec<Symbol>,
}

/// A mapping from nonterminals to sets of terminals, in insertion order.
#[derive(PartialEq, Eq, Debug)]
pub struct FirstSets {
    pub entries: Vec<FirstEntry>,
}

/// The map described by a sequence of FIRST entries, later entries
/// overriding earlier ones.
pub open spec fn first_map(s: Seq<FirstEntry>) -> Map<SymbolView, Set<SymbolView>>
    decreases s.len(),
{
    if s.len() == 0 {
        Map::empty()
    } else {
        first_map(s.drop_last()).insert(s.last().key@, sym_set(s.last().terminals@))
    }
}

/// The keys of the entries are pairwise distinct.
pub open spec fn first_wf(s: Seq<FirstEntry>) -> bool {
    forall|i: int, j: int|
        0 <= i < j < s.len() ==> (#[trigger] s[i].key)@ != (#[trigger] s[j].key)@
}

/// A key is in the map exactly when some entry carries it.
pub proof fn lemma_first_dom(s: Seq<FirstEntry>, k: SymbolView)
    ensures
        first_map(s).dom().contains(k) <==> exists|i: int| 0 <= i < s.len() && (#[trigger] s[i].key)@ == k,
    decreases s.len(),
{
    if s.len() > 0 {
        lemma_first_dom(s.drop_last(), k);
        if s.last().key@ == k {
            assert(s[s.len() - 1].key@ == k);
        } else if first_map(s).dom().contains(k) {
            let i = choose|i: int| 0 <= i < s.drop_last().len() && (#[trigger] s.drop_last()[i].key)@ == k;
            assert(s[i].key@ == k);
        } else if exists|i: int| 0 <= i < s.len() && (#[trigger] s[i].key)@ == k {
            let i = choose|i: int| 0 <= i < s.len() && (#[trigger] s[i].key)@ == k;
            assert(i < s.len() - 1);
            assert(s.drop_last()[i].key@ == k);
        }
    }
}

/// With distinct keys, looking up an entry's key yields that entry's set.
pub proof fn lemma_first_get(s: Seq<FirstEntry>, i: int)
    requires
        first_wf(s),
        0 <= i < s.len(),
    ensures
        first_map(s).dom().contains(s[i].key@),
        first_map(s)[s[i].key@] == sym_set(s[i].terminals@),
    decreases s.len(),
{
    if i < s.len() - 1 {
        assert(s.drop_last()[i] == s[i]);
        lemma_first_get(s.drop_last(), i);
        assert(s.last().key@ != s[i].key@);
    }
}

/// Replacing entry `i` by one with the same key updates the map at that key.
pub proof fn lemma_first_update(s: Seq<FirstEntry>, i: int, e: FirstEntry)
    requires
        first_wf(s),
        0 <= i < s.len(),
        e.key@ == s[i].key@,
    ensures
        first_wf(s.update(i, e)),
        first_map(s.update(i, e)) == first_map(s).insert(e.key@, sym_set(e.terminals@)),
    decreases s.len(),
{
    let t = s.update(i, e);
    assert(forall|a: int, b: int|
        0 <= a < b < t.len() ==> (#[trigger] t[a].key)@ != (#[trigger] t[b].key)@);
    if i == s.len() - 1 {
        assert(t.drop_last() =~= s.drop_last());
        assert(t.last() == e);
        assert(first_map(t) =~= first_map(s).insert(e.key@, sym_set(e.terminals@)));
    } else {
        assert(t.drop_last() =~= s.drop_last().update(i, e));
        lemma_first_update(s.drop_last(), i, e);
        assert(t.last() == s.last());
        assert(s.last().key@ != e.key@);
        assert(first_map(t) =~= first_map(s).insert(e.key@, sym_set(e.terminals@)));
    }
}

/// Appending an entry with a fresh key inserts it into the map.
pub proof fn lemma_first_push(s: Seq<FirstEntry>, e: FirstEntry)
    requires
        first_wf(s),
        forall|i: int| 0 <= i < s.len() ==> (#[trigger] s[i].key)@ != e.key@,
    ensures
        first_wf(s.push(e)),
        first_map(s.push(e)) == first_map(s).insert(e.key@, sym_set(e.terminals@)),
{
    assert(s.push(e).drop_last() =~= s);
    assert(s.push(e).last() == e);
    assert(forall|a: int, b: int|
        0 <= a < b < s.push(e).len() ==> (#[trigger] s.push(e)[a].key)@ != (#[trigger] s.push(e)[b].key)@);
}

/// The total number of terminal occurrences stored across all entries;
/// it grows with every recorded terminal and bounds the fixed-point work.
pub open spec fn total_terms(s: Seq<FirstEntry>) -> int
    decreases s.len(),
{
    if s.len() == 0 {
        0
    } else {
        total_terms(s.drop_last()) + s.last().terminals@.len()
    }
}

/// Changing one entry changes the total by the difference at that entry.
pub proof fn lemma_total_pointwise(s1: Seq<FirstEntry>, s2: Seq<FirstEntry>, i: int)
    requires
        s1.len() == s2.len(),
        0 <= i < s1.len(),
        forall|j: int| 0 <= j < s1.len() && j != i ==> s2[j] == s1[j],
    ensures
        total_terms(s2) == total_terms(s1) - s1[i].terminals@.len() + s2[i].terminals@.len(),
    decreases s1.len(),
{
    if i == s1.len() - 1 {
        assert(s2.drop_last() =~= s1.drop_last());
    } else {
        assert(forall|j: int|
            0 <= j < s1.drop_last().len() && j != i ==> s2.drop_last()[j] == s1.drop_last()[j]);
        lemma_total_pointwise(s1.drop_last(), s2.drop_last(), i);
        assert(s2.last() == s1.last());
    }
}

/// With every entry holding at most `c` terminals, the total is at most
/// `c` per entry.
pub proof fn lemma_total_bound(s: Seq<FirstEntry>, c: int)
    requires
        c >= 0,
        forall|i: int| 0 <= i < s.len() ==> (#[trigger] s[i]).terminals@.len() <= c,
    ensures
        0 <= total_terms(s) <= s.len() * c,
    decreases s.len(),
{
    if s.len() > 0 {
        assert(forall|i: int|
            0 <= i < s.drop_last().len() ==> (#[trigger] s.drop_last()[i]).terminals@.len() <= c);
        lemma_total_bound(s.drop_last(), c);
        assert((s.len() - 1) * c + c == s.len() * c) by (nonlinear_arith);
    }
}

impl View for FirstSets {
    type V = Map<SymbolView, Set<SymbolView>>;

    open spec fn view(&self) -> Map<SymbolView, Set<SymbolView>> {
        first_map(self.entries@)
    }
}

impl FirstSets {
    /// The entry keys are pairwise distinct, so the map determines them.
    pub open spec fn wf(&self) -> bool {
        first_wf(self.entries@)
    }

    /// An empty family of FIRST sets.
    pub fn new() -> (r: FirstSets)
        ensures
            r.wf(),
            r@ == Map::<SymbolView, Set<SymbolView>>::empty(),
            r.entries@ == Seq::<FirstEntry>::empty(),
    {
        FirstSets { entries: Vec::new() }
    }

    fn find(&self, k: &Symbol) -> (r: Option<usize>)
        ensures
            match r {
                Some(i) => i < self.entries@.len() && self.entries@[i as int].key@ == k@,
                None => forall|i: int|
                    0 <= i < self.entries@.len() ==> (#[trigger] self.entries@[i].key)@ != k@,
            },
    {
        let mut i: usize = 0;
        while i < self.entries.len()
            invariant
                0 <= i <= self.entries@.len(),
                forall|j: int| 0 <= j < i ==> (#[trigger] self.entries@[j].key)@ != k@,
            decreases self.entries@.len() - i,
        {
            if self.entries[i].key.sym_eq(k) {
                return Some(i);
            }
            i += 1;
        }
        None
    }

    /// Whether `k` already has a FIRST set.
    pub fn contains_key(&self, k: &Symbol) -> (r: bool)
        ensures
            r == self@.dom().contains(k@),
    {
        proof {
            lemma_first_dom(self.entries@, k@);
        }
        match self.find(k) {
            Some(_) => true,
            None => false,
        }
    }

    /// Starts an empty FIRST set for a new nonterminal.
    pub fn insert_empty(&mut self, k: Symbol)
        requires
            old(self).wf(),
            !old(self)@.dom().contains(k@),
        ensures
            final(self).wf(),
            final(self)@ == old(self)@.insert(k@, Set::<SymbolView>::empty()),
            final(self).entries@.len() == old(self).entries@.len() + 1,
            forall|j: int|
                0 <= j < old(self).entries@.len() ==> final(self).entries@[j] == old(
                    self,
                ).entries@[j],
            final(self).entries@.last().terminals@.len() == 0,
    {
        proof {
            lemma_first_dom(self.entries@, k@);
        }
        let e = FirstEntry { key: k, terminals: Vec::new() };
        proof {
            lemma_first_push(self.entries@, e);
            assert(sym_set(e.terminals@) =~= Set::<SymbolView>::empty());
        }
        self.entries.push(e);
    }

    /// The terminals found so far for `k`.
    pub fn get(&self, k: &Symbol) -> (r: Option<&Vec<Symbol>>)
        requires
            self.wf(),
        ensures
            match r {
                Some(ts) => self@.dom().contains(k@) && sym_set(ts@) == self@[k@],
                None => !self@.dom().contains(k@),
            },
    {
        proof {
            lemma_first_dom(self.entries@, k@);
        }
        match self.find(k) {
            Some(i) => {
                proof {
                    lemma_first_get(self.entries@, i as int);
                }
                Some(&self.entries[i].terminals)
            },
            None => None,
        }
    }

    /// Whether terminal `t` is already in the FIRST set of `k`.
    pub fn has_terminal(&self, k: &Symbol, t: &Symbol) -> (r: bool)
        requires
            self.wf(),
            self@.dom().contains(k@),
        ensures
            r == self@[k@].contains(t@),
    {
        match self.get(k) {
            Some(ts) => crate::rule::syms_contain(ts, t),
            None => unreached(),
        }
    }

    /// Adds terminal `t` to the FIRST set of `k`.
    pub fn add_terminal(&mut self, k: &Symbol, t: Symbol)
        requires
            old(self).wf(),
            old(self)@.dom().contains(k@),
        ensures
            final(self).wf(),
            final(self)@ == old(self)@.insert(k@, old(self)@[k@].insert(t@)),
            final(self).entries@.len() == old(self).entries@.len(),
            exists|i: int|
                #![trigger old(self).entries@[i]]
                0 <= i < old(self).entries@.len()
                && old(self).entries@[i].key@ == k@
                && final(self).entries@[i].key@ == k@
                && sym_views(final(self).entries@[i].terminals@)
                    == sym_views(old(self).entries@[i].terminals@).push(t@)
                && final(self).entries@[i].terminals@.len()
                    == old(self).entries@[i].terminals@.len() + 1
                && (forall|j: int|
                    0 <= j < old(self).entries@.len() && j != i
                        ==> final(self).entries@[j] == old(self).entries@[j]),
    {
        proof {
            lemma_first_dom(self.entries@, k@);
        }
        let i = match self.find(k) {
            Some(i) => i,
            None => unreached(),
        };
        proof {
            lemma_first_get(self.entries@, i as int);
        }
        let old_entry = &self.entries[i];
        let ghost old_terms = sym_set(old_entry.terminals@);
        let mut terminals = crate::rule::dup_symbols(&old_entry.terminals);
        let ghost tv = t@;
        terminals.push(t);
        let e = FirstEntry { key: old_entry.key.dup(), terminals };
        proof {
            assert(sym_views(e.terminals@) =~= sym_views(self.entries@[i as int].terminals@).push(tv));
            assert(sym_set(e.terminals@) =~= old_terms.insert(tv)) by {
                assert forall|x: SymbolView| sym_set(e.terminals@).contains(x) implies old_terms.insert(tv).contains(x) by {
                    let vs = sym_views(e.terminals@);
                    let j = choose|j: int| 0 <= j < vs.len() && vs[j] == x;
                    if j < vs.len() - 1 {
                        assert(sym_views(self.entries@[i as int].terminals@).contains(x));
                    }
                }
                assert forall|x: SymbolView| old_terms.insert(tv).contains(x) implies sym_set(e.terminals@).contains(x) by {
                    let vs = sym_views(e.terminals@);
                    if x == tv {
                        assert(vs[vs.len() - 1] == x);
                        assert(vs.contains(x));
                    } else {
                        let pv = sym_views(self.entries@[i as int].terminals@);
                        let j = choose|j: int| 0 <= j < pv.len() && pv[j] == x;
                        assert(vs[j] == x);
                        assert(vs.contains(x));
                    }
                }
            }
            lemma_first_update(self.entries@, i as int, e);
        }
        self.entries.set(i, e);
    }
}

/// One transition of the automaton: from a state, over a symbol, to a state.
#[derive(PartialEq, Eq, Debug)]
pub struct TransEntry {
    pub from: usize,
    pub sym: Symbol,
    pub to: usize,
}

/// The transition map of the automaton, keyed by (state index, symbol);
/// it covers terminal edges (shifts) and nonterminal edges (gotos).
#[derive(PartialEq, Eq, Debug)]
pub struct TransitionTable {
    pub entries: Vec<TransEntry>,
}

/// The map described by a sequence of transitions, later entries
/// overriding earlier ones.
pub open spec fn trans_map(s: Seq<TransEntry>) -> Map<(int, SymbolView), int>
    decreases s.len(),
{
    if s.len() == 0 {
        Map::empty()
    } else {
        trans_map(s.drop_last()).insert((s.last().from as int, s.last().sym@), s.last().to as int)
    }
}

/// The spec-level key of a transition entry.
pub open spec fn trans_key(e: TransEntry) -> (int, SymbolView) {
    (e.from as int, e.sym@)
}

/// The keys of the transitions are pairwise distinct.
pub open spec fn trans_wf(s: Seq<TransEntry>) -> bool {
    forall|i: int, j: int|
        0 <= i < j < s.len() ==> trans_key(#[trigger] s[i]) != trans_key(#[trigger] s[j])
}

/// A key is in the map exactly when some transition carries it.
pub proof fn lemma_trans_dom(s: Seq<TransEntry>, k: (int, SymbolView))
    ensures
        trans_map(s).dom().contains(k) <==> exists|i: int|
            0 <= i < s.len() && trans_key(#[trigger] s[i]) == k,
    decreases s.len(),
{
    if s.len() > 0 {
        lemma_trans_dom(s.drop_last(), k);
        if trans_key(s.last()) == k {
            assert(trans_key(s[s.len() - 1]) == k);
        } else if trans_map(s).dom().contains(k) {
            let i = choose|i: int|
                0 <= i < s.drop_last().len() && trans_key(#[trigger] s.drop_last()[i]) == k;
            assert(trans_key(s[i]) == k);
        } else if exists|i: int| 0 <= i < s.len() && trans_key(#[trigger] s[i]) == k {
            let i = choose|i: int| 0 <= i < s.len() && trans_key(#[trigger] s[i]) == k;
            assert(i < s.len() - 1);
            assert(trans_key(s.drop_last()[i]) == k);
        }
    }
}

/// With distinct keys, looking up a transition's key yields its target.
pub proof fn lemma_trans_get(s: Seq<TransEntry>, i: int)
    requires
        trans_wf(s),
        0 <= i < s.len(),
    ensures
        trans_map(s).dom().contains(trans_key(s[i])),
        trans_map(s)[trans_key(s[i])] == s[i].to as int,
    decreases s.len(),
{
    if i < s.len() - 1 {
        assert(s.drop_last()[i] == s[i]);
        lemma_trans_get(s.drop_last(), i);
        assert(trans_key(s.last()) != trans_key(s[i]));
    }
}

/// Appending a transition with a fresh key inserts it into the map.
pub proof fn lemma_trans_push(s: Seq<TransEntry>, e: TransEntry)
    requires
        trans_wf(s),
        forall|i: int| 0 <= i < s.len() ==> trans_key(#[trigger] s[i]) != trans_key(e),
    ensures
        trans_wf(s.push(e)),
        trans_map(s.push(e)) == trans_map(s).insert(trans_key(e), e.to as int),
{
    assert(s.push(e).drop_last() =~= s);
    assert(s.push(e).last() == e);
    assert(forall|a: int, b: int|
        0 <= a < b < s.push(e).len() ==> trans_key(#[trigger] s.push(e)[a]) != trans_key(
            #[trigger] s.push(e)[b],
        ));
}

impl View for TransitionTable {
    type V = Map<(int, SymbolView), int>;

    open spec fn view(&self) -> Map<(int, SymbolView), int> {
        trans_map(self.entries@)
    }
}

impl TransitionTable {
    /// The entry keys are pairwise distinct, so the map determines them.
    pub open spec fn wf(&self) -> bool {
        trans_wf(self.entries@)
    }

    /// An empty transition map.
    pub fn new() -> (r: TransitionTable)
        ensures
            r.wf(),
            r@ == Map::<(int, SymbolView), int>::empty(),
    {
        TransitionTable { entries: Vec::new() }
    }

    fn find(&self, from: usize, sym: &Symbol) -> (r: Option<usize>)
        ensures
            match r {
                Some(i) => i < self.entries@.len() && trans_key(self.entries@[i as int]) == (
                    from as int,
                    sym@,
                ),
                None => forall|i: int|
                    0 <= i < self.entries@.len() ==> trans_key(#[trigger] self.entries@[i]) != (
                        from as int,
                        sym@,
                    ),
            },
    {
        let mut i: usize = 0;
        while i < self.entries.len()
            invariant
                0 <= i <= self.entries@.len(),
                forall|j: int|
                    0 <= j < i ==> trans_key(#[trigger] self.entries@[j]) != (from as int, sym@),
            decreases self.entries@.len() - i,
        {
            if self.entries[i].from == from && self.entries[i].sym.sym_eq(sym) {
                return Some(i);
            }
            i += 1;
        }
        None
    }

    /// The target state for the given state and symbol, if one is recorded.
    pub fn get(&self, from: usize, sym: &Symbol) -> (r: Option<usize>)
        requires
            self.wf(),
        ensures
            match r {
                Some(t) => self@.dom().contains((from as int, sym@)) && self@[(from as int, sym@)]
                    == t as int,
                None => !self@.dom().contains((from as int, sym@)),
            },
    {
        proof {
            lemma_trans_dom(self.entries@, (from as int, sym@));
        }
        match self.find(from, sym) {
            Some(i) => {
                proof {
                    lemma_trans_get(self.entries@, i as int);
                }
                Some(self.entries[i].to)
            },
            None => None,
        }
    }

    /// Records a transition for a key that is not yet present.
    pub fn insert_new(&mut self, from: usize, sym: Symbol, to: usize)
        requires
            old(self).wf(),
            !old(self)@.dom().contains((from as int, sym@)),
        ensures
            final(self).wf(),
            final(self)@ == old(self)@.insert((from as int, sym@), to as int),
    {
        proof {
            lemma_trans_dom(self.entries@, (from as int, sym@));
        }
        let e = TransEntry { from, sym, to };
        proof {
            lemma_trans_push(self.entries@, e);
        }
        self.entries.push(e);
    }
}

/// One entry of the action table: for a state and a terminal, an action.
#[derive(PartialEq, Eq, Debug)]
pub struct ActionEntry {
    pub state: usize,
    pub terminal: Symbol,
    pub action: Action,
}

/// The action table, keyed by (state index, terminal).
#[derive(PartialEq, Eq, Debug)]
pub struct ActionTable {
    pub entries: Vec<ActionEntry>,
}

/// The map described by a sequence of action entries, later entries
/// overriding earlier ones.
pub open spec fn action_map(s: Seq<ActionEntry>) -> Map<(int, SymbolView), ActionView>
    decreases s.len(),
{
    if s.len() == 0 {
        Map::empty()
    } else {
        action_map(s.drop_last()).insert(
            (s.last().state as int, s.last().terminal@),
            s.last().action@,
        )
    }
}

/// The spec-level key of an action entry.
pub open spec fn action_key(e: ActionEntry) -> (int, SymbolView) {
    (e.state as int, e.terminal@)
}

/// The keys of the action entries are pairwise distinct.
pub open spec fn action_wf(s: Seq<ActionEntry>) -> bool {
    forall|i: int, j: int|
        0 <= i < j < s.len() ==> action_key(#[trigger] s[i]) != action_key(#[trigger] s[j])
}

/// A key is in the map exactly when some entry carries it.
pub proof fn lemma_action_dom(s: Seq<ActionEntry>, k: (int, SymbolView))
    ensures
        action_map(s).dom().contains(k) <==> exists|i: int|
            0 <= i < s.len() && action_key(#[trigger] s[i]) == k,
    decreases s.len(),
{
    if s.len() > 0 {
        lemma_action_dom(s.drop_last(), k);
        if action_key(s.last()) == k {
            assert(action_key(s[s.len() - 1]) == k);
        } else if action_map(s).dom().contains(k) {
            let i = choose|i: int|
                0 <= i < s.drop_last().len() && action_key(#[trigger] s.drop_last()[i]) == k;
            assert(action_key(s[i]) == k);
        } else if exists|i: int| 0 <= i < s.len() && action_key(#[trigger] s[i]) == k {
            let i = choose|i: int| 0 <= i < s.len() && action_key(#[trigger] s[i]) == k;
            assert(i < s.len() - 1);
            assert(action_key(s.drop_last()[i]) == k);
        }
    }
}

/// With distinct keys, looking up an entry's key yields its action.
pub proof fn lemma_action_get(s: Seq<ActionEntry>, i: int)
    requires
        action_wf(s),
        0 <= i < s.len(),
    ensures
        action_map(s).dom().contains(action_key(s[i])),
        action_map(s)[action_key(s[i])] == s[i].action@,
    decreases s.len(),
{
    if i < s.len() - 1 {
        assert(s.drop_last()[i] == s[i]);
        lemma_action_get(s.drop_last(), i);
        assert(action_key(s.last()) != action_key(s[i]));
    }
}

/// Replacing entry `i` by one with the same key updates the map at that key.
pub proof fn lemma_action_update(s: Seq<ActionEntry>, i: int, e: ActionEntry)
    requires
        action_wf(s),
        0 <= i < s.len(),
        action_key(e) == action_key(s[i]),
    ensures
        action_wf(s.update(i, e)),
        action_map(s.update(i, e)) == action_map(s).insert(action_key(e), e.action@),
    decreases s.len(),
{
    let t = s.update(i, e);
    assert(forall|a: int, b: int|
        0 <= a < b < t.len() ==> action_key(#[trigger] t[a]) != action_key(#[trigger] t[b]));
    if i == s.len() - 1 {
        assert(t.drop_last() =~= s.drop_last());
        assert(t.last() == e);
        assert(action_map(t) =~= action_map(s).insert(action_key(e), e.action@));
    } else {
        assert(t.drop_last() =~= s.drop_last().update(i, e));
        lemma_action_update(s.drop_last(), i, e);
        assert(t.last() == s.last());
        assert(action_key(s.last()) != action_key(e));
        assert(action_map(t) =~= action_map(s).insert(action_key(e), e.action@));
    }
}

/// Appending an entry with a fresh key inserts it into the map.
pub proof fn lemma_action_push(s: Seq<ActionEntry>, e: ActionEntry)
    requires
        action_wf(s),
        forall|i: int| 0 <= i < s.len() ==> action_key(#[trigger] s[i]) != action_key(e),
    ensures
        action_wf(s.push(e)),
        action_map(s.push(e)) == action_map(s).insert(action_key(e), e.action@),
{
    assert(s.push(e).drop_last() =~= s);
    assert(s.push(e).last() == e);
    assert(forall|a: int, b: int|
        0 <= a < b < s.push(e).len() ==> action_key(#[trigger] s.push(e)[a]) != action_key(
            #[trigger] s.push(e)[b],
        ));
}

impl View for ActionTable {
    type V = Map<(int, SymbolView), ActionView>;

    open spec fn view(&self) -> Map<(int, SymbolView), ActionView> {
        action_map(self.entries@)
    }
}

impl ActionTable {
    /// The entry keys are pairwise distinct, so the map determines them.
    pub open spec fn wf(&self) -> bool {
        action_wf(self.entries@)
    }

    /// An empty action table.
    pub fn new() -> (r: ActionTable)
        ensures
            r.wf(),
            r@ == Map::<(int, SymbolView), ActionView>::empty(),
    {
        ActionTable { entries: Vec::new() }
    }

    fn find(&self, state: usize, terminal: &Symbol) -> (r: Option<usize>)
        ensures
            match r {
                Some(i) => i < self.entries@.len() && action_key(self.entries@[i as int]) == (
                    state as int,
                    terminal@,
                ),
                None => forall|i: int|
                    0 <= i < self.entries@.len() ==> action_key(#[trigger] self.entries@[i]) != (
                        state as int,
                        terminal@,
                    ),
            },
    {
        let mut i: usize = 0;
        while i < self.entries.len()
            invariant
                0 <= i <= self.entries@.len(),
                forall|j: int|
                    0 <= j < i ==> action_key(#[trigger] self.entries@[j]) != (
                        state as int,
                        terminal@,
                    ),
            decreases self.entries@.len() - i,
        {
            if self.entries[i].state == state && self.entries[i].terminal.sym_eq(terminal) {
                return Some(i);
            }
            i += 1;
        }
        None
    }

    /// The action for the given state and terminal, if one is recorded.
    pub fn get(&self, state: usize, terminal: &Symbol) -> (r: Option<Action>)
        requires
            self.wf(),
        ensures
            match r {
                Some(a) => self@.dom().contains((state as int, terminal@)) && self@[(
                    state as int,
                    terminal@,
                )] == a@,
                None => !self@.dom().contains((state as int, terminal@)),
            },
    {
        proof {
            lemma_action_dom(self.entries@, (state as int, terminal@));
        }
        match self.find(state, terminal) {
            Some(i) => {
                proof {
                    lemma_action_get(self.entries@, i as int);
                }
                Some(self.entries[i].action)
            },
            None => None,
        }
    }

    /// Records an action, silently overwriting any earlier action recorded
    /// for the same key (the last write wins).
    pub fn insert(&mut self, state: usize, terminal: Symbol, action: Action)
        requires
            old(self).wf(),
        ensures
            final(self).wf(),
            final(self)@ == old(self)@.insert((state as int, terminal@), action@),
    {
        proof {
            lemma_action_dom(self.entries@, (state as int, terminal@));
        }
        match self.find(state, &terminal) {
            Some(i) => {
                let e = ActionEntry { state, terminal, action };
                proof {
                    lemma_action_update(self.entries@, i as int, e);
                }
                self.entries.set(i, e);
            },
            None => {
                let e = ActionEntry { state, terminal, action };
                proof {
                    lemma_action_push(self.entries@, e);
                }
                self.entries.push(e);
            },
        }
    }
}

} // verus!
