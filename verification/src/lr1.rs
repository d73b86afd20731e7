//! Grammar analysis: LR(1) items, item-set closure, FIRST sets, the
//! canonical collection of states, and table construction.

use vstd::pervasive::unreached;
use vstd::prelude::*;
use vstd::set_lib::lemma_len_subset;
use vstd::set_lib::lemma_len_union;
use vstd::set_lib::lemma_map_size;
use vstd::set_lib::lemma_map_size_bound;
use vstd::string::StringExecFns;

use crate::rule::dup_symbols;
use crate::rule::rule_rhs_defined;
use crate::rule::rule_views;
use crate::rule::sym_set;
use crate::rule::syms_contain;
use crate::rule::sym_views;
use crate::rule::Rule;
use crate::rule::RuleView;
use crate::rule::Symbol;
use crate::rule::SymbolView;
use crate::tables::FirstEntry;
use crate::tables::FirstSets;

verus! {

/// Mathematical model of an LR(1) item: a rule, the dot position in
/// `0..=rule.right.len()`, and a single lookahead terminal.
#[verifier::ext_equal]
pub ghost struct ItemView {
    pub rule: RuleView,
    pub dot: int,
    pub look: SymbolView,
}

/// An LR(1) item: a rule, a dot position, and a lookahead symbol.
/// Two items are equal exactly when all three parts are.
#[derive(Clone, Ord, PartialOrd, PartialEq, Eq, Hash, Debug)]
pub struct Lr1Item(pub Rule, pub usize, pub Symbol);

impl View for Lr1Item {
    type V = ItemView;

    open spec fn view(&self) -> ItemView {
        ItemView { rule: self.0@, dot: self.1 as int, look: self.2@ }
    }
}

impl Lr1Item {
    /// Copy of an item whose model provably equals the original's.
    pub fn dup(&self) -> (r: Lr1Item)
        ensures
            r@ == self@,
    {
        let r = Lr1Item(self.0.dup(), self.1, self.2.dup());
        proof {
            assert(r@ =~= self@);
        }
        r
    }

    /// Decides equality of the modeled values.
    pub fn item_eq(&self, other: &Lr1Item) -> (r: bool)
        ensures
            r == (self@ == other@),
    {
        let r = self.0.rule_eq(&other.0) && self.1 == other.1 && self.2.sym_eq(&other.2);
        proof {
            if r {
                assert(self@ =~= other@);
            }
        }
        r
    }
}

/// The models of a sequence of items.
pub open spec fn item_views(s: Seq<Lr1Item>) -> Seq<ItemView> {
    s.map_values(|x: Lr1Item| x@)
}

/// The set of models of a sequence of items; the insertion order and any
/// duplicates are irrelevant to it.
pub open spec fn item_set(s: Seq<Lr1Item>) -> Set<ItemView> {
    item_views(s).to_set()
}

/// Decides whether some item in `v` models the same value as `x`.
pub fn items_contain(v: &Vec<Lr1Item>, x: &Lr1Item) -> (r: bool)
    ensures
        r == item_set(v@).contains(x@),
{
    let mut i: usize = 0;
    while i < v.len()
        invariant
            0 <= i <= v.len(),
            forall|j: int| 0 <= j < i ==> v@[j]@ != x@,
        decreases v.len() - i,
    {
        if v[i].item_eq(x) {
            proof {
                assert(item_views(v@)[i as int] == x@);
                assert(item_views(v@).contains(x@));
            }
            return true;
        }
        i += 1;
    }
    proof {
        if item_set(v@).contains(x@) {
            let j = choose|j: int| 0 <= j < item_views(v@).len() && item_views(v@)[j] == x@;
            assert(v@[j]@ == x@);
        }
    }
    false
}

/// A sequence of distinct values drawn from a finite set is no longer
/// than that set's cardinality.
pub proof fn lemma_seq_distinct_in<A>(s: Seq<A>, u: Set<A>)
    requires
        s.no_duplicates(),
        u.finite(),
        forall|i: int| 0 <= i < s.len() ==> u.contains(#[trigger] s[i]),
    ensures
        s.len() <= u.len(),
{
    s.unique_seq_to_set();
    assert(s.to_set().subset_of(u));
    lemma_len_subset(s.to_set(), u);
}

/// The lookahead set an item propagates to the rules of the nonterminal
/// after its dot: FIRST of the symbol following that nonterminal if it is
/// a nonterminal, that symbol alone if it is a terminal, and the item's
/// own lookahead if nothing follows.
pub open spec fn lookahead_set(firsts: Map<SymbolView, Set<SymbolView>>, it: ItemView) -> Set<
    SymbolView,
> {
    if it.dot + 1 < it.rule.right.len() {
        match it.rule.right[it.dot + 1] {
            SymbolView::Nonterminal(_) => firsts[it.rule.right[it.dot + 1]],
            SymbolView::Terminal(_) => set![it.rule.right[it.dot + 1]],
        }
    } else {
        set![it.look]
    }
}

/// Item `it` asks for item `(rules[k], 0, la)`: the symbol after its dot
/// is the nonterminal on the left of `rules[k]`, and `la` is in the
/// lookahead set `it` propagates.
pub open spec fn item_expands_to(
    rules: Seq<RuleView>,
    firsts: Map<SymbolView, Set<SymbolView>>,
    it: ItemView,
    k: int,
    la: SymbolView,
) -> bool {
    &&& 0 <= it.dot < it.rule.right.len()
    &&& it.rule.right[it.dot] is Nonterminal
    &&& 0 <= k < rules.len()
    &&& rules[k].left == it.rule.right[it.dot]
    &&& lookahead_set(firsts, it).contains(la)
}

/// Every item that `it` asks for is in `s`.
pub open spec fn item_closed_in(
    rules: Seq<RuleView>,
    firsts: Map<SymbolView, Set<SymbolView>>,
    s: Set<ItemView>,
    it: ItemView,
) -> bool {
    forall|k: int, la: SymbolView|
        #![trigger rules[k], lookahead_set(firsts, it).contains(la)]
        item_expands_to(rules, firsts, it, k, la) ==> s.contains(
            ItemView { rule: rules[k], dot: 0, look: la },
        )
}

/// `s` contains every item that any of its items asks for.
pub open spec fn closed_under_expansion(
    rules: Seq<RuleView>,
    firsts: Map<SymbolView, Set<SymbolView>>,
    s: Set<ItemView>,
) -> bool {
    forall|it: ItemView| #[trigger] s.contains(it) ==> item_closed_in(rules, firsts, s, it)
}

/// The closure of `kernel`: the least item set that contains `kernel` and
/// is closed under lookahead-propagating expansion, written as the
/// intersection of all such sets.
pub open spec fn spec_closure(
    rules: Seq<RuleView>,
    firsts: Map<SymbolView, Set<SymbolView>>,
    kernel: Set<ItemView>,
) -> Set<ItemView> {
    Set::new(
        |it: ItemView|
            forall|s: Set<ItemView>|
                #![trigger s.contains(it)]
                kernel.subset_of(s) && closed_under_expansion(rules, firsts, s) ==> s.contains(it),
    )
}

/// The closure contains its kernel.
pub proof fn lemma_closure_has_kernel(
    rules: Seq<RuleView>,
    firsts: Map<SymbolView, Set<SymbolView>>,
    kernel: Set<ItemView>,
)
    ensures
        kernel.subset_of(spec_closure(rules, firsts, kernel)),
{
    assert forall|it: ItemView| kernel.contains(it) implies spec_closure(
        rules,
        firsts,
        kernel,
    ).contains(it) by {
        assert forall|s: Set<ItemView>|
            kernel.subset_of(s) && closed_under_expansion(rules, firsts, s) implies s.contains(
            it,
        ) by {}
    }
}

/// The closure is contained in every closed superset of its kernel.
pub proof fn lemma_closure_least(
    rules: Seq<RuleView>,
    firsts: Map<SymbolView, Set<SymbolView>>,
    kernel: Set<ItemView>,
    s: Set<ItemView>,
)
    requires
        kernel.subset_of(s),
        closed_under_expansion(rules, firsts, s),
    ensures
        spec_closure(rules, firsts, kernel).subset_of(s),
{
    assert forall|it: ItemView| spec_closure(rules, firsts, kernel).contains(it) implies s.contains(
        it,
    ) by {}
}

/// The closure is itself closed under expansion.
pub proof fn lemma_closure_closed(
    rules: Seq<RuleView>,
    firsts: Map<SymbolView, Set<SymbolView>>,
    kernel: Set<ItemView>,
)
    ensures
        closed_under_expansion(rules, firsts, spec_closure(rules, firsts, kernel)),
{
    let c = spec_closure(rules, firsts, kernel);
    assert forall|it: ItemView| #[trigger] c.contains(it) implies item_closed_in(
        rules,
        firsts,
        c,
        it,
    ) by {
        assert forall|k: int, la: SymbolView|
            #![trigger rules[k], lookahead_set(firsts, it).contains(la)]
            item_expands_to(rules, firsts, it, k, la) implies c.contains(
            ItemView { rule: rules[k], dot: 0, look: la },
        ) by {
            let d = ItemView { rule: rules[k], dot: 0, look: la };
            assert forall|s: Set<ItemView>|
                kernel.subset_of(s) && closed_under_expansion(rules, firsts, s) implies s.contains(
                d,
            ) by {
                assert(s.contains(it));
                assert(item_closed_in(rules, firsts, s, it));
            }
        }
    }
}

/// Closing an item set twice adds nothing beyond closing it once.
///
/// Law: `closure(closure(x)) == closure(x)` for every item set `x`.
pub proof fn lemma_closure_idempotent(
    rules: Seq<RuleView>,
    firsts: Map<SymbolView, Set<SymbolView>>,
    x: Set<ItemView>,
)
    ensures
        spec_closure(rules, firsts, spec_closure(rules, firsts, x)) == spec_closure(
            rules,
            firsts,
            x,
        ),
{
    let c = spec_closure(rules, firsts, x);
    lemma_closure_has_kernel(rules, firsts, c);
    lemma_closure_closed(rules, firsts, x);
    lemma_closure_least(rules, firsts, c, c);
    assert(spec_closure(rules, firsts, c) =~= c);
}

/// Pushing an item extends the modeled sequence and set accordingly.
pub proof fn lemma_item_views_push(s: Seq<Lr1Item>, x: Lr1Item)
    ensures
        item_views(s.push(x)) == item_views(s).push(x@),
        item_set(s.push(x)) == item_set(s).insert(x@),
{
    assert(item_views(s.push(x)) =~= item_views(s).push(x@));
    assert(item_set(s.push(x)) =~= item_set(s).insert(x@)) by {
        assert forall|y: ItemView| item_set(s.push(x)).contains(y) implies item_set(
            s,
        ).insert(x@).contains(y) by {
            let vp = item_views(s).push(x@);
            let i = choose|i: int| 0 <= i < vp.len() && vp[i] == y;
            if i < s.len() {
                assert(item_views(s)[i] == y);
                assert(item_views(s).contains(y));
            }
        }
        assert forall|y: ItemView| item_set(s).insert(x@).contains(y) implies item_set(
            s.push(x),
        ).contains(y) by {
            let vp = item_views(s).push(x@);
            if y == x@ {
                assert(vp[s.len() as int] == y);
                assert(vp.contains(y));
            } else {
                let i = choose|i: int| 0 <= i < item_views(s).len() && item_views(s)[i] == y;
                assert(vp[i] == y);
                assert(vp.contains(y));
            }
        }
    }
}

/// Appending a value not yet present keeps a sequence duplicate-free.
pub proof fn lemma_push_no_dup<A>(s: Seq<A>, x: A)
    requires
        s.no_duplicates(),
        !s.contains(x),
    ensures
        s.push(x).no_duplicates(),
{
    assert forall|i: int, j: int|
        0 <= i < j < s.push(x).len() implies s.push(x)[i] != s.push(x)[j] by {
        if j == s.len() {
            assert(s.contains(s[i]));
        }
    }
}

/// What an item asks for only grows with the surrounding set.
pub proof fn lemma_closed_in_monotone(
    rules: Seq<RuleView>,
    firsts: Map<SymbolView, Set<SymbolView>>,
    s1: Set<ItemView>,
    s2: Set<ItemView>,
    it: ItemView,
)
    requires
        item_closed_in(rules, firsts, s1, it),
        s1.subset_of(s2),
    ensures
        item_closed_in(rules, firsts, s2, it),
{
}

/// The symbols occurring on the right-hand sides of the first `n` rules.
pub open spec fn rhs_syms(rules: Seq<RuleView>, n: nat) -> Set<SymbolView>
    decreases n,
{
    if n == 0 {
        Set::empty()
    } else {
        rhs_syms(rules, (n - 1) as nat).union(rules[n - 1].right.to_set())
    }
}

/// `rhs_syms` is finite.
pub proof fn lemma_rhs_syms_finite(rules: Seq<RuleView>, n: nat)
    ensures
        rhs_syms(rules, n).finite(),
    decreases n,
{
    broadcast use vstd::seq_lib::seq_to_set_is_finite;

    if n > 0 {
        lemma_rhs_syms_finite(rules, (n - 1) as nat);
    }
}

/// Every right-hand-side symbol of a covered rule is in `rhs_syms`.
pub proof fn lemma_rhs_syms_contains(rules: Seq<RuleView>, n: nat, k: int, j: int)
    requires
        0 <= k < n,
        0 <= j < rules[k].right.len(),
    ensures
        rhs_syms(rules, n).contains(rules[k].right[j]),
    decreases n,
{
    if k == n - 1 {
        assert(rules[k].right.contains(rules[k].right[j]));
    } else {
        lemma_rhs_syms_contains(rules, (n - 1) as nat, k, j);
    }
}

/// All terminals recorded in the first `n` FIRST-set entries.
pub open spec fn firsts_syms(s: Seq<FirstEntry>, n: nat) -> Set<SymbolView>
    decreases n,
{
    if n == 0 {
        Set::empty()
    } else {
        firsts_syms(s, (n - 1) as nat).union(sym_set(s[n - 1].terminals@))
    }
}

/// `firsts_syms` is finite.
pub proof fn lemma_firsts_syms_finite(s: Seq<FirstEntry>, n: nat)
    ensures
        firsts_syms(s, n).finite(),
    decreases n,
{
    broadcast use vstd::seq_lib::seq_to_set_is_finite;

    if n > 0 {
        lemma_firsts_syms_finite(s, (n - 1) as nat);
    }
}

/// Each entry's terminal set is inside `firsts_syms`.
pub proof fn lemma_firsts_syms_entry(s: Seq<FirstEntry>, n: nat, i: int)
    requires
        0 <= i < n,
    ensures
        sym_set(s[i].terminals@).subset_of(firsts_syms(s, n)),
    decreases n,
{
    if i < n - 1 {
        lemma_firsts_syms_entry(s, (n - 1) as nat, i);
    }
}

/// Every value of the FIRST map lies inside the recorded terminals.
pub proof fn lemma_firsts_value_in(s: Seq<FirstEntry>, k: SymbolView)
    requires
        crate::tables::first_wf(s),
        crate::tables::first_map(s).dom().contains(k),
    ensures
        crate::tables::first_map(s)[k].subset_of(firsts_syms(s, s.len())),
{
    crate::tables::lemma_first_dom(s, k);
    let i = choose|i: int| 0 <= i < s.len() && (#[trigger] s[i].key)@ == k;
    crate::tables::lemma_first_get(s, i);
    lemma_firsts_syms_entry(s, s.len(), i);
}

/// All right-hand-side symbols of `r` lie in `las`.
pub open spec fn rhs_in(r: RuleView, las: Set<SymbolView>) -> bool {
    forall|j: int| 0 <= j < r.right.len() ==> las.contains(#[trigger] r.right[j])
}

/// The items over rule `r` with dot `d` and any lookahead from `las`.
pub open spec fn items_at(r: RuleView, d: int, las: Set<SymbolView>) -> Set<ItemView> {
    las.map(|la: SymbolView| ItemView { rule: r, dot: d, look: la })
}

/// The items over rule `r` with any dot in `0..=d`.
pub open spec fn items_dots(r: RuleView, d: nat, las: Set<SymbolView>) -> Set<ItemView>
    decreases d,
{
    if d == 0 {
        items_at(r, 0, las)
    } else {
        items_dots(r, (d - 1) as nat, las).union(items_at(r, d as int, las))
    }
}

/// The items over the first `n` rules, any valid dot, any lookahead
/// from `las`: a finite universe every closure stays inside.
pub open spec fn item_univ(rules: Seq<RuleView>, n: nat, las: Set<SymbolView>) -> Set<ItemView>
    decreases n,
{
    if n == 0 {
        Set::empty()
    } else {
        item_univ(rules, (n - 1) as nat, las).union(
            items_dots(rules[n - 1], rules[n - 1].right.len(), las),
        )
    }
}

/// `items_dots` is finite when the lookahead pool is.
pub proof fn lemma_items_dots_finite(r: RuleView, d: nat, las: Set<SymbolView>)
    requires
        las.finite(),
    ensures
        items_dots(r, d, las).finite(),
    decreases d,
{
    lemma_map_size_bound(las, items_at(r, d as int, las), |la: SymbolView| ItemView { rule: r, dot: d as int, look: la });
    if d > 0 {
        lemma_items_dots_finite(r, (d - 1) as nat, las);
    } else {
        lemma_map_size_bound(las, items_at(r, 0, las), |la: SymbolView| ItemView { rule: r, dot: 0, look: la });
    }
}

/// `item_univ` is finite when the lookahead pool is.
pub proof fn lemma_item_univ_finite(rules: Seq<RuleView>, n: nat, las: Set<SymbolView>)
    requires
        las.finite(),
    ensures
        item_univ(rules, n, las).finite(),
    decreases n,
{
    if n > 0 {
        lemma_item_univ_finite(rules, (n - 1) as nat, las);
        lemma_items_dots_finite(rules[n - 1 as int], rules[n - 1 as int].right.len(), las);
    }
}

/// `items_dots` contains every item with a covered dot position.
pub proof fn lemma_items_dots_contains(r: RuleView, d: nat, las: Set<SymbolView>, it: ItemView)
    requires
        it.rule == r,
        0 <= it.dot <= d,
        las.contains(it.look),
    ensures
        items_dots(r, d, las).contains(it),
    decreases d,
{
    if it.dot == d {
        assert(items_at(r, d as int, las).contains(it));
    } else {
        lemma_items_dots_contains(r, (d - 1) as nat, las, it);
    }
}

/// `item_univ` contains every item over a covered rule with a valid dot
/// and a pooled lookahead.
pub proof fn lemma_item_univ_contains(
    rules: Seq<RuleView>,
    n: nat,
    las: Set<SymbolView>,
    k: int,
    it: ItemView,
)
    requires
        0 <= k < n,
        it.rule == rules[k],
        0 <= it.dot <= rules[k].right.len(),
        las.contains(it.look),
    ensures
        item_univ(rules, n, las).contains(it),
    decreases n,
{
    if k == n - 1 {
        lemma_items_dots_contains(rules[k], rules[k].right.len(), las, it);
    } else {
        lemma_item_univ_contains(rules, (n - 1) as nat, las, k, it);
    }
}

/// Grammar analysis is deterministic: two computations of the FIRST sets
/// of one grammar agree, and so do two closures of one kernel under
/// them, because each function's contract pins its result to a single
/// mathematical value. (The numbering of the automaton's states is not
/// covered here: the builder's contract fixes each state's item set and
/// the transitions between them, not the order states are discovered in.)
pub proof fn lemma_analysis_deterministic(
    rules: Seq<RuleView>,
    fs1: FirstSets,
    fs2: FirstSets,
    kernel: Set<ItemView>,
    c1: Seq<Lr1Item>,
    c2: Seq<Lr1Item>,
)
    requires
        fs1@ == spec_first(rules),
        fs2@ == spec_first(rules),
        item_set(c1) == spec_closure(rules, fs1@, kernel),
        item_set(c2) == spec_closure(rules, fs2@, kernel),
    ensures
        fs1@ == fs2@,
        item_set(c1) == item_set(c2),
{
}

/// Every member of the closure is a kernel item or an item asked for by
/// the expansion step: one of the given rules with its dot at the start.
pub proof fn lemma_closure_members(
    rules: Seq<RuleView>,
    firsts: Map<SymbolView, Set<SymbolView>>,
    kernel: Set<ItemView>,
    bound: Set<ItemView>,
)
    requires
        kernel.subset_of(bound),
        forall|it: ItemView, k: int, la: SymbolView|
            #![trigger bound.contains(it), rules[k], lookahead_set(firsts, it).contains(la)]
            bound.contains(it) && item_expands_to(rules, firsts, it, k, la) ==> bound.contains(
                ItemView { rule: rules[k], dot: 0, look: la },
            ),
    ensures
        spec_closure(rules, firsts, kernel).subset_of(bound),
{
    assert(closed_under_expansion(rules, firsts, bound));
    lemma_closure_least(rules, firsts, kernel, bound);
}

/// Two to the power `n`.
pub open spec fn two_pow(n: nat) -> nat
    decreases n,
{
    if n == 0 {
        1
    } else {
        2 * two_pow((n - 1) as nat)
    }
}

/// Powers of two are positive.
pub proof fn lemma_two_pow_pos(n: nat)
    ensures
        two_pow(n) >= 1,
    decreases n,
{
    if n > 0 {
        lemma_two_pow_pos((n - 1) as nat);
    }
}

/// A finite family of distinct subsets of a finite set `u` has at most
/// `2^|u|` members.
pub proof fn lemma_distinct_subsets_count<A>(fam: Set<Set<A>>, u: Set<A>)
    requires
        fam.finite(),
        u.finite(),
        forall|s: Set<A>| #[trigger] fam.contains(s) ==> s.subset_of(u),
    ensures
        fam.len() <= two_pow(u.len()),
    decreases u.len(),
{
    if u.len() == 0 {
        assert(u =~= Set::<A>::empty());
        assert forall|s: Set<A>| fam.contains(s) implies s == Set::<A>::empty() by {
            assert(s =~= Set::<A>::empty());
        }
        assert(fam.subset_of(set![Set::<A>::empty()]));
        lemma_len_subset(fam, set![Set::<A>::empty()]);
    } else {
        let x = u.choose();
        assert(u.contains(x));
        let f1 = Set::new(|s: Set<A>| fam.contains(s) && s.contains(x));
        let f2 = Set::new(|s: Set<A>| fam.contains(s) && !s.contains(x));
        vstd::set_lib::lemma_set_subset_finite(fam, f1);
        vstd::set_lib::lemma_set_subset_finite(fam, f2);
        assert(fam =~= f1.union(f2));
        lemma_len_union(f1, f2);
        let rem = |s: Set<A>| s.remove(x);
        let g = f1.map(rem);
        assert(vstd::relations::injective_on(rem, f1)) by {
            assert forall|s1: Set<A>, s2: Set<A>|
                f1.contains(s1) && f1.contains(s2) && #[trigger] rem(s1) == #[trigger] rem(
                    s2,
                ) implies s1 == s2 by {
                assert(s1 =~= s1.remove(x).insert(x));
                assert(s2 =~= s2.remove(x).insert(x));
            }
        }
        lemma_map_size(f1, g, rem);
        let u2 = u.remove(x);
        assert forall|s: Set<A>| #[trigger] g.contains(s) implies s.subset_of(u2) by {
            let s0 = choose|s0: Set<A>| f1.contains(s0) && rem(s0) == s;
        }
        assert forall|s: Set<A>| #[trigger] f2.contains(s) implies s.subset_of(u2) by {}
        lemma_distinct_subsets_count(g, u2);
        lemma_distinct_subsets_count(f2, u2);
        assert(two_pow(u.len()) == 2 * two_pow(u2.len()));
    }
}

/// Unpacks membership in `items_at`.
pub proof fn lemma_items_at_inv(r: RuleView, d: int, las: Set<SymbolView>, it: ItemView)
    requires
        items_at(r, d, las).contains(it),
    ensures
        it.rule == r,
        it.dot == d,
        las.contains(it.look),
{
    let la = choose|la: SymbolView|
        las.contains(la) && (ItemView { rule: r, dot: d, look: la }) == it;
}

/// Unpacks membership in `items_dots`.
pub proof fn lemma_items_dots_inv(r: RuleView, d: nat, las: Set<SymbolView>, it: ItemView)
    requires
        items_dots(r, d, las).contains(it),
    ensures
        it.rule == r,
        0 <= it.dot <= d,
        las.contains(it.look),
    decreases d,
{
    if d == 0 {
        lemma_items_at_inv(r, 0, las, it);
    } else {
        if items_at(r, d as int, las).contains(it) {
            lemma_items_at_inv(r, d as int, las, it);
        } else {
            lemma_items_dots_inv(r, (d - 1) as nat, las, it);
        }
    }
}

/// Unpacks membership in `item_univ`.
pub proof fn lemma_item_univ_inv(rules: Seq<RuleView>, n: nat, las: Set<SymbolView>, it: ItemView)
    requires
        item_univ(rules, n, las).contains(it),
    ensures
        exists|k: int|
            0 <= k < n && it.rule == #[trigger] rules[k] && 0 <= it.dot <= rules[k].right.len(),
        las.contains(it.look),
    decreases n,
{
    if n > 0 {
        if items_dots(rules[n - 1], rules[n - 1].right.len(), las).contains(it) {
            lemma_items_dots_inv(rules[n - 1], rules[n - 1].right.len(), las, it);
            assert(it.rule == rules[n - 1]);
        } else {
            lemma_item_univ_inv(rules, (n - 1) as nat, las, it);
        }
    }
}

/// The item universe absorbs the expansion step: with all FIRST values
/// and right-hand-side symbols pooled, expanding never leaves it.
pub proof fn lemma_univ_absorbs(
    rules: Seq<RuleView>,
    firsts: Map<SymbolView, Set<SymbolView>>,
    las: Set<SymbolView>,
)
    requires
        forall|k: int|
            0 <= k < rules.len() ==> rule_rhs_defined(#[trigger] rules[k], firsts.dom()),
        rhs_syms(rules, rules.len()).subset_of(las),
        forall|key: SymbolView| #[trigger]
            firsts.dom().contains(key) ==> firsts[key].subset_of(las),
    ensures
        forall|it: ItemView, k: int, la: SymbolView|
            #![trigger item_univ(rules, rules.len(), las).contains(it), rules[k], lookahead_set(firsts, it).contains(la)]
            item_univ(rules, rules.len(), las).contains(it) && item_expands_to(
                rules,
                firsts,
                it,
                k,
                la,
            ) ==> item_univ(rules, rules.len(), las).contains(
                ItemView { rule: rules[k], dot: 0, look: la },
            ),
{
    let u = item_univ(rules, rules.len(), las);
    assert forall|it: ItemView, k: int, la: SymbolView|
        u.contains(it) && item_expands_to(rules, firsts, it, k, la) implies u.contains(
        ItemView { rule: rules[k], dot: 0, look: la },
    ) by {
        lemma_item_univ_inv(rules, rules.len(), las, it);
        let k2 = choose|k2: int|
            0 <= k2 < rules.len() && it.rule == #[trigger] rules[k2] && 0 <= it.dot
                <= rules[k2].right.len();
        assert(las.contains(la)) by {
            if it.dot + 1 < it.rule.right.len() {
                let f = it.rule.right[it.dot + 1];
                match f {
                    SymbolView::Nonterminal(_) => {
                        assert(firsts.dom().contains(f));
                        assert(firsts[f].contains(la));
                    },
                    SymbolView::Terminal(_) => {
                        lemma_rhs_syms_contains(rules, rules.len(), k2, it.dot + 1);
                        assert(la == f);
                    },
                }
            } else {
                assert(la == it.look);
            }
        }
        lemma_item_univ_contains(
            rules,
            rules.len(),
            las,
            k,
            ItemView { rule: rules[k], dot: 0, look: la },
        );
    }
}

/// Decides whether every item of `a` is, by model, among those of `b`.
pub fn items_subset(a: &Vec<Lr1Item>, b: &Vec<Lr1Item>) -> (r: bool)
    ensures
        r == item_set(a@).subset_of(item_set(b@)),
{
    let mut i: usize = 0;
    while i < a.len()
        invariant
            0 <= i <= a@.len(),
            forall|j: int| 0 <= j < i ==> item_set(b@).contains(#[trigger] item_views(a@)[j]),
        decreases a@.len() - i,
    {
        if !items_contain(b, &a[i]) {
            proof {
                assert(item_views(a@)[i as int] == a@[i as int]@);
                assert(item_set(a@).contains(a@[i as int]@)) by {
                    assert(item_views(a@).contains(item_views(a@)[i as int]));
                }
            }
            return false;
        }
        i += 1;
    }
    proof {
        assert forall|y: ItemView| item_set(a@).contains(y) implies item_set(b@).contains(y) by {
            let j = choose|j: int| 0 <= j < item_views(a@).len() && item_views(a@)[j] == y;
        }
    }
    true
}

/// Decides whether two item vectors model the same item set.
pub fn item_vecs_equal(a: &Vec<Lr1Item>, b: &Vec<Lr1Item>) -> (r: bool)
    ensures
        r == (item_set(a@) == item_set(b@)),
{
    let r = items_subset(a, b) && items_subset(b, a);
    proof {
        if r {
            assert(item_set(a@) =~= item_set(b@));
        }
    }
    r
}

/// The position of an existing state equal, as an item set, to `cand`.
pub fn find_state(states: &Vec<Vec<Lr1Item>>, cand: &Vec<Lr1Item>) -> (r: Option<usize>)
    ensures
        match r {
            Some(p) => p < states@.len() && item_set(states@[p as int]@) == item_set(cand@),
            None => forall|j: int|
                0 <= j < states@.len() ==> item_set((#[trigger] states@[j])@) != item_set(cand@),
        },
{
    let mut i: usize = 0;
    while i < states.len()
        invariant
            0 <= i <= states@.len(),
            forall|j: int| 0 <= j < i ==> item_set((#[trigger] states@[j])@) != item_set(cand@),
        decreases states@.len() - i,
    {
        if item_vecs_equal(&states[i], cand) {
            return Some(i);
        }
        i += 1;
    }
    None
}

/// The item sets modeled by a list of states.
pub open spec fn state_views(states: Seq<Vec<Lr1Item>>) -> Seq<Set<ItemView>> {
    states.map_values(|v: Vec<Lr1Item>| item_set(v@))
}

/// `e` stands right after the dot of some item of `s`.
pub open spec fn edge_of(s: Set<ItemView>, e: SymbolView) -> bool {
    exists|it: ItemView| #[trigger]
        s.contains(it) && 0 <= it.dot < it.rule.right.len() && it.rule.right[it.dot] == e
}

/// The items of `s` with `e` after the dot, each with its dot advanced
/// over `e`; the kernel of the state reached from `s` over `e`.
pub open spec fn advance_set(s: Set<ItemView>, e: SymbolView) -> Set<ItemView> {
    Set::new(
        |a: ItemView|
            exists|it: ItemView| #[trigger]
                s.contains(it) && 0 <= it.dot < it.rule.right.len() && it.rule.right[it.dot] == e
                    && a == (ItemView { rule: it.rule, dot: it.dot + 1, look: it.look }),
    )
}

/// The kernel of the initial state: the augmented start rule with the dot
/// at the start, under the end-of-input lookahead.
pub open spec fn init_kernel(start: RuleView) -> Set<ItemView> {
    set![ItemView { rule: start, dot: 0, look: SymbolView::Terminal("$"@) }]
}

/// A canonical LR(1) collection for `rules`: state 0 is the closure of
/// the initial kernel; a transition is recorded for exactly the symbols
/// standing after a dot, and leads to the closure of the advanced kernel;
/// states are pairwise distinct; every item uses one of the grammar's
/// rules.
pub open spec fn automaton_ok(
    rules: Seq<RuleView>,
    firsts: Map<SymbolView, Set<SymbolView>>,
    start: RuleView,
    states: Seq<Set<ItemView>>,
    go: Map<(int, SymbolView), int>,
) -> bool {
    &&& states.len() >= 1
    &&& states[0] == spec_closure(rules, firsts, init_kernel(start))
    &&& forall|i: int, e: SymbolView|
        0 <= i < states.len() && #[trigger] edge_of(states[i], e) ==> go.dom().contains((i, e))
    &&& forall|k: (int, SymbolView)| #[trigger]
        go.dom().contains(k) ==> 0 <= k.0 < states.len() && edge_of(states[k.0], k.1) && 0 <= go[k]
            < states.len() && states[go[k]] == spec_closure(
            rules,
            firsts,
            advance_set(states[k.0], k.1),
        )
    &&& forall|i: int, j: int|
        0 <= i < j < states.len() ==> #[trigger] states[i] != #[trigger] states[j]
    &&& forall|i: int, it: ItemView|
        0 <= i < states.len() && #[trigger] states[i].contains(it) ==> 0 <= it.dot
            <= it.rule.right.len() && exists|k: int|
            0 <= k < rules.len() && it.rule == #[trigger] rules[k]
}

/// The position of the first rule equal to `r`, or the length when none
/// matches; reductions are addressed by this stable index.
pub open spec fn rule_index(rules: Seq<RuleView>, r: RuleView) -> int
    decreases rules.len(),
{
    if rules.len() == 0 {
        0
    } else if rules.first() == r {
        0
    } else {
        1 + rule_index(rules.drop_first(), r)
    }
}

/// The first match determines `rule_index`.
pub proof fn lemma_rule_index_of(rules: Seq<RuleView>, r: RuleView, i: int)
    requires
        0 <= i < rules.len(),
        rules[i] == r,
        forall|j: int| 0 <= j < i ==> rules[j] != r,
    ensures
        rule_index(rules, r) == i,
        0 <= rule_index(rules, r) < rules.len(),
        rules[rule_index(rules, r)] == r,
    decreases rules.len(),
{
    if rules.first() == r {
        assert(i == 0);
    } else {
        assert(rules[0] != r);
        assert(i > 0);
        assert(forall|j: int| 0 <= j < i - 1 ==> rules.drop_first()[j] == #[trigger] rules[j + 1]);
        lemma_rule_index_of(rules.drop_first(), r, i - 1);
    }
}

/// The position of the first rule structurally equal to `r`.
pub fn find_rule_index(rules: &Vec<Rule>, r: &Rule) -> (res: usize)
    requires
        exists|k: int|
            0 <= k < rule_views(rules@).len() && #[trigger] rule_views(rules@)[k] == r@,
    ensures
        res < rules@.len(),
        res as int == rule_index(rule_views(rules@), r@),
        rule_views(rules@)[res as int] == r@,
{
    let mut i: usize = 0;
    while i < rules.len()
        invariant
            0 <= i <= rules@.len(),
            forall|j: int| 0 <= j < i ==> #[trigger] rule_views(rules@)[j] != r@,
        decreases rules@.len() - i,
    {
        if rules[i].rule_eq(r) {
            proof {
                lemma_rule_index_of(rule_views(rules@), r@, i as int);
            }
            return i;
        }
        i += 1;
    }
    proof {
        let k = choose|k: int|
            0 <= k < rule_views(rules@).len() && #[trigger] rule_views(rules@)[k] == r@;
        assert(false);
    }
    unreached()
}

/// Item `it` in state `i` demands action `a` for terminal `term`: a
/// fully-consumed item demands `Accept` under its lookahead when its rule
/// is the augmented start rule and otherwise `Reduce` of its rule's
/// index; an item with a terminal after the dot demands `Shift` along
/// the recorded transition.
pub open spec fn item_demands(
    rules: Seq<RuleView>,
    aug_left: SymbolView,
    go: Map<(int, SymbolView), int>,
    i: int,
    it: ItemView,
    term: SymbolView,
    a: crate::parser::ActionView,
) -> bool {
    if it.dot == it.rule.right.len() {
        it.look == term && (if it.rule.left == aug_left {
            a == crate::parser::ActionView::Accept
        } else {
            a == crate::parser::ActionView::Reduce(rule_index(rules, it.rule))
        })
    } else {
        &&& 0 <= it.dot < it.rule.right.len()
        &&& it.rule.right[it.dot] == term
        &&& term is Terminal
        &&& a == crate::parser::ActionView::Shift(go[(i, term)])
    }
}

/// The action table holds an entry exactly for the keys some item
/// demands, and each entry is an action demanded by one of that state's
/// items; conflicting demands are silently resolved by whichever item was
/// recorded last.
pub open spec fn action_ok(
    rules: Seq<RuleView>,
    aug_left: SymbolView,
    states: Seq<Set<ItemView>>,
    go: Map<(int, SymbolView), int>,
    am: Map<(int, SymbolView), crate::parser::ActionView>,
) -> bool {
    &&& forall|kk: (int, SymbolView)| #[trigger]
        am.dom().contains(kk) ==> 0 <= kk.0 < states.len() && exists|it: ItemView| #[trigger]
            states[kk.0].contains(it) && item_demands(rules, aug_left, go, kk.0, it, kk.1, am[kk])
    &&& forall|i: int, it: ItemView, term: SymbolView, a: crate::parser::ActionView|
        #![trigger states[i].contains(it), item_demands(rules, aug_left, go, i, it, term, a)]
        0 <= i < states.len() && states[i].contains(it) && item_demands(
            rules,
            aug_left,
            go,
            i,
            it,
            term,
            a,
        ) ==> am.dom().contains((i, term))
}

/// The goto table is the transition map restricted to nonterminal edges.
pub open spec fn goto_ok(
    go: Map<(int, SymbolView), int>,
    gt: Map<(int, SymbolView), int>,
) -> bool {
    &&& forall|kk: (int, SymbolView)| #[trigger]
        gt.dom().contains(kk) ==> go.dom().contains(kk) && kk.1 is Nonterminal && gt[kk] == go[kk]
    &&& forall|kk: (int, SymbolView)|
        #[trigger] go.dom().contains(kk) && kk.1 is Nonterminal ==> gt.dom().contains(kk)
}

/// A placeholder for a future concrete parse-tree representation.
pub enum ParseTree {
    Nonterminal(),
}

/// Errors that stop table construction.
#[derive(Clone, Copy, PartialEq, Eq, Debug)]
pub enum BuildError {
    /// Build was invoked without a declared nonterminal start symbol.
    NoStartSymbol,
    /// A rule with an empty right-hand side reached the FIRST
    /// computation; such productions are unsupported.
    EmptyProduction,
    /// Two different goto targets for one key: an automaton-construction
    /// defect. The builder keeps its transition map keyed uniquely, and
    /// that is proved, so it never returns this; the variant names the
    /// condition for completeness.
    InconsistentGoto,
}

/// The rule the grammar is augmented with: a fresh start symbol, named
/// with a trailing prime, deriving the declared start symbol.
pub open spec fn aug_rule_view(name: Seq<char>) -> RuleView {
    RuleView {
        left: SymbolView::Nonterminal(name + "'"@),
        right: seq![SymbolView::Nonterminal(name)],
    }
}

/// Every rule's right-hand side is non-empty.
pub open spec fn all_nonempty(rules: Seq<RuleView>) -> bool {
    forall|k: int| 0 <= k < rules.len() ==> (#[trigger] rules[k]).right.len() > 0
}

/// The invariant of the state-collection worklist: states so far are
/// distinct subsets of the item universe, state 0 is the initial closure,
/// recorded transitions are correct, and states before `index` have all
/// their edges recorded.
pub open spec fn bfs_inv(
    rules: Seq<RuleView>,
    firsts: Map<SymbolView, Set<SymbolView>>,
    start: RuleView,
    univ: Set<ItemView>,
    states: Seq<Vec<Lr1Item>>,
    go: Map<(int, SymbolView), int>,
    index: int,
) -> bool {
    &&& states.len() >= 1
    &&& state_views(states)[0] == spec_closure(rules, firsts, init_kernel(start))
    &&& forall|i: int|
        0 <= i < states.len() ==> (#[trigger] state_views(states)[i]).subset_of(univ)
    &&& forall|i: int, j: int|
        0 <= i < j < states.len() ==> #[trigger] state_views(states)[i]
            != #[trigger] state_views(states)[j]
    &&& states.len() <= two_pow(univ.len())
    &&& forall|kk: (int, SymbolView)| #[trigger]
        go.dom().contains(kk) ==> 0 <= kk.0 < states.len() && edge_of(
            state_views(states)[kk.0],
            kk.1,
        ) && 0 <= go[kk] < states.len() && state_views(states)[go[kk]] == spec_closure(
            rules,
            firsts,
            advance_set(state_views(states)[kk.0], kk.1),
        )
    &&& forall|i2: int, e: SymbolView|
        0 <= i2 < index && #[trigger] edge_of(state_views(states)[i2], e) ==> go.dom().contains(
            (i2, e),
        )
}

/// Already-performed expansions: every rule before `k` whose left side is
/// `n` has, for every pooled lookahead, its starting item in `s`.
pub open spec fn expansions_done(
    rules: Seq<RuleView>,
    k: int,
    n: SymbolView,
    las: Set<SymbolView>,
    s: Set<ItemView>,
) -> bool {
    forall|k2: int, la: SymbolView|
        #![trigger rules[k2], las.contains(la)]
        0 <= k2 < k && rules[k2].left == n && las.contains(la) ==> s.contains(
            ItemView { rule: rules[k2], dot: 0, look: la },
        )
}

/// Appending a value inserts it into the modeled set.
pub proof fn lemma_to_set_push<A>(s: Seq<A>, x: A)
    ensures
        s.push(x).to_set() == s.to_set().insert(x),
{
    assert(s.push(x).to_set() =~= s.to_set().insert(x)) by {
        assert forall|y: A| s.push(x).to_set().contains(y) implies s.to_set().insert(x).contains(
            y,
        ) by {
            let i = choose|i: int| 0 <= i < s.push(x).len() && s.push(x)[i] == y;
            if i < s.len() {
                assert(s[i] == y);
                assert(s.contains(y));
            }
        }
        assert forall|y: A| s.to_set().insert(x).contains(y) implies s.push(x).to_set().contains(
            y,
        ) by {
            if y == x {
                assert(s.push(x)[s.len() as int] == y);
                assert(s.push(x).contains(y));
            } else {
                let i = choose|i: int| 0 <= i < s.len() && s[i] == y;
                assert(s.push(x)[i] == y);
                assert(s.push(x).contains(y));
            }
        }
    }
}

/// Rule `k` is respected by the map `m`: the first right-hand-side symbol,
/// if a terminal, is in FIRST of the left side; if a nonterminal, its
/// FIRST set is included in FIRST of the left side.
pub open spec fn first_rule_ok(
    rules: Seq<RuleView>,
    m: Map<SymbolView, Set<SymbolView>>,
    k: int,
) -> bool {
    rules[k].right.len() > 0 ==> match rules[k].right[0] {
        SymbolView::Terminal(_) => m[rules[k].left].contains(rules[k].right[0]),
        SymbolView::Nonterminal(_) => m[rules[k].right[0]].subset_of(m[rules[k].left]),
    }
}

/// `m` maps exactly the left-side nonterminals and respects every rule.
pub open spec fn first_closed_map(rules: Seq<RuleView>, m: Map<SymbolView, Set<SymbolView>>) -> bool {
    &&& m.dom() == crate::rule::lhs_set(rules)
    &&& forall|k: int| 0 <= k < rules.len() ==> #[trigger] first_rule_ok(rules, m, k)
}

/// FIRST of `a`: the terminals that every rule-respecting map assigns to
/// `a` — the least fixed point of the FIRST equations at `a`.
pub open spec fn first_of(rules: Seq<RuleView>, a: SymbolView) -> Set<SymbolView> {
    Set::new(
        |t: SymbolView|
            forall|m: Map<SymbolView, Set<SymbolView>>| #[trigger]
                first_closed_map(rules, m) ==> m[a].contains(t),
    )
}

/// The FIRST sets of a grammar: FIRST of each left-side nonterminal.
pub open spec fn spec_first(rules: Seq<RuleView>) -> Map<SymbolView, Set<SymbolView>> {
    Map::new(
        |a: SymbolView| crate::rule::lhs_set(rules).contains(a),
        |a: SymbolView| first_of(rules, a),
    )
}

/// A terminal opening a rule belongs to FIRST of the rule's left side.
pub proof fn lemma_first_of_terminal(rules: Seq<RuleView>, k: int)
    requires
        0 <= k < rules.len(),
        rules[k].right.len() > 0,
        rules[k].right[0] is Terminal,
    ensures
        first_of(rules, rules[k].left).contains(rules[k].right[0]),
{
    assert forall|m: Map<SymbolView, Set<SymbolView>>| #[trigger]
        first_closed_map(rules, m) implies m[rules[k].left].contains(rules[k].right[0]) by {
        assert(first_rule_ok(rules, m, k));
    }
}

/// A nonterminal opening a rule passes its whole FIRST set to the rule's
/// left side.
pub proof fn lemma_first_of_step(rules: Seq<RuleView>, k: int)
    requires
        0 <= k < rules.len(),
        rules[k].right.len() > 0,
        rules[k].right[0] is Nonterminal,
    ensures
        first_of(rules, rules[k].right[0]).subset_of(first_of(rules, rules[k].left)),
{
    assert forall|t: SymbolView|
        first_of(rules, rules[k].right[0]).contains(t) implies first_of(
        rules,
        rules[k].left,
    ).contains(t) by {
        assert forall|m: Map<SymbolView, Set<SymbolView>>| #[trigger]
            first_closed_map(rules, m) implies m[rules[k].left].contains(t) by {
            assert(first_rule_ok(rules, m, k));
            assert(m[rules[k].right[0]].contains(t));
        }
    }
}

/// FIRST is below every rule-respecting map.
pub proof fn lemma_first_of_least(rules: Seq<RuleView>, m: Map<SymbolView, Set<SymbolView>>)
    requires
        first_closed_map(rules, m),
    ensures
        forall|a: SymbolView| first_of(rules, a).subset_of(#[trigger] m[a]),
{
    assert forall|a: SymbolView| first_of(rules, a).subset_of(#[trigger] m[a]) by {
        assert forall|t: SymbolView| first_of(rules, a).contains(t) implies m[a].contains(t) by {}
    }
}

/// The entries' terminal vectors are duplicate-free and drawn from the
/// candidate pool.
pub open spec fn first_rep_ok(entries: Seq<FirstEntry>, cand: Set<SymbolView>) -> bool {
    forall|e: int|
        0 <= e < entries.len() ==> sym_views((#[trigger] entries[e]).terminals@).no_duplicates()
            && sym_set(entries[e].terminals@).subset_of(cand)
}

/// The map values are below the FIRST sets the grammar defines.
pub open spec fn first_sound(rules: Seq<RuleView>, m: Map<SymbolView, Set<SymbolView>>) -> bool {
    forall|a: SymbolView| #[trigger] m.dom().contains(a) ==> m[a].subset_of(first_of(rules, a))
}

/// Recording one new pooled terminal keeps the representation invariant
/// and grows the total count by one.
pub proof fn lemma_rep_after_add(
    pre: Seq<FirstEntry>,
    post: Seq<FirstEntry>,
    cand: Set<SymbolView>,
    kv: SymbolView,
    tv: SymbolView,
    i: int,
)
    requires
        crate::tables::first_wf(pre),
        first_rep_ok(pre, cand),
        cand.contains(tv),
        0 <= i < pre.len(),
        post.len() == pre.len(),
        pre[i].key@ == kv,
        !crate::tables::first_map(pre)[kv].contains(tv),
        sym_views(post[i].terminals@) == sym_views(pre[i].terminals@).push(tv),
        post[i].terminals@.len() == pre[i].terminals@.len() + 1,
        forall|j: int| 0 <= j < pre.len() && j != i ==> post[j] == pre[j],
    ensures
        first_rep_ok(post, cand),
        crate::tables::total_terms(post) == crate::tables::total_terms(pre) + 1,
{
    crate::tables::lemma_first_get(pre, i);
    assert(!sym_views(pre[i].terminals@).contains(tv)) by {
        if sym_views(pre[i].terminals@).contains(tv) {
            assert(sym_set(pre[i].terminals@).contains(tv));
        }
    }
    lemma_push_no_dup(sym_views(pre[i].terminals@), tv);
    lemma_to_set_push(sym_views(pre[i].terminals@), tv);
    assert(sym_set(post[i].terminals@) == sym_set(pre[i].terminals@).insert(tv));
    crate::tables::lemma_total_pointwise(pre, post, i);
    assert forall|e: int|
        0 <= e < post.len() implies sym_views(
        (#[trigger] post[e]).terminals@,
    ).no_duplicates() && sym_set(post[e].terminals@).subset_of(cand) by {
        if e != i {
            assert(post[e] == pre[e]);
        }
    }
}

/// Accumulates production rules and a start symbol, then builds the LR(1)
/// tables for the grammar they describe.
pub struct Lr1ParserBuilder {
    pub rules: Vec<Rule>,
    pub starting_symbol: Option<Symbol>,
}

impl Lr1ParserBuilder {
    /// A builder with no rules and no start symbol.
    pub fn new() -> (r: Self)
        ensures
            r.rules@ == Seq::<Rule>::empty(),
            r.starting_symbol is None,
    {
        Lr1ParserBuilder { rules: Vec::new(), starting_symbol: None }
    }

    /// Appends one production rule, keeping the insertion order.
    pub fn add_rule(&mut self, rule: Rule) -> (ret: &mut Self)
        ensures
            ret.rules@ == old(self).rules@.push(rule),
            ret.starting_symbol == old(self).starting_symbol,
            *final(self) == *final(ret),
    {
        self.rules.push(rule);
        self
    }

    /// Declares the start symbol, replacing any earlier choice.
    pub fn starting_symbol(&mut self, symbol: Symbol) -> (ret: &mut Self)
        ensures
            ret.rules@ == old(self).rules@,
            ret.starting_symbol == Some(symbol),
            *final(self) == *final(ret),
    {
        self.starting_symbol = Some(symbol);
        self
    }

    /// Computes the FIRST set of every nonterminal standing on the left
    /// of a rule, iterating the FIRST equations to their least fixed
    /// point. Only the first right-hand-side symbol of each rule is
    /// consulted, which is sound because no rule may have an empty
    /// right-hand side.
    #[verifier::loop_isolation(false)]
    pub fn compute_first_sets(&self) -> (r: FirstSets)
        requires
            forall|k: int|
                0 <= k < self.rules@.len() ==> (#[trigger] rule_views(self.rules@)[k]).right.len()
                    > 0,
            forall|k: int|
                0 <= k < self.rules@.len() && (#[trigger] rule_views(self.rules@)[k]).right[0]
                    is Nonterminal ==> crate::rule::lhs_set(rule_views(self.rules@)).contains(
                    rule_views(self.rules@)[k].right[0],
                ),
        ensures
            r.wf(),
            r@ == spec_first(rule_views(self.rules@)),
    {
        let ghost rv = rule_views(self.rules@);
        let mut fs = FirstSets::new();
        // Give every left-side nonterminal an empty FIRST set.
        let mut i: usize = 0;
        while i < self.rules.len()
            invariant
                0 <= i <= self.rules@.len(),
                fs.wf(),
                forall|k: int| 0 <= k < i ==> fs@.dom().contains((#[trigger] rv[k]).left),
                forall|a: SymbolView| #[trigger]
                    fs@.dom().contains(a) ==> exists|k: int| 0 <= k < i && rv[k].left == a,
                forall|a: SymbolView| #[trigger]
                    fs@.dom().contains(a) ==> fs@[a] == Set::<SymbolView>::empty(),
                forall|e: int|
                    0 <= e < fs.entries@.len() ==> (#[trigger] fs.entries@[e]).terminals@.len()
                        == 0,
            decreases self.rules@.len() - i,
        {
            if !fs.contains_key(&self.rules[i].left) {
                proof {
                    assert(rv[i as int].left == self.rules@[i as int].left@);
                }
                fs.insert_empty(self.rules[i].left.dup());
            }
            i += 1;
        }
        proof {
            assert(fs@.dom() =~= crate::rule::lhs_set(rv));
        }
        // The only terminals FIRST sets can ever hold: the rule-opening
        // symbols.
        let ghost cand = Seq::new(rv.len(), |k: int| rv[k].right[0]).to_set();
        let ghost n_entries = fs.entries@.len();
        let ghost bound = n_entries * cand.len();
        proof {
            broadcast use vstd::seq_lib::seq_to_set_is_finite;

            Seq::new(rv.len(), |k: int| rv[k].right[0]).lemma_cardinality_of_set();
            assert(first_rep_ok(fs.entries@, cand)) by {
                assert forall|e: int|
                    0 <= e < fs.entries@.len() implies sym_views(
                    (#[trigger] fs.entries@[e]).terminals@,
                ).no_duplicates() && sym_set(fs.entries@[e].terminals@).subset_of(cand) by {
                    assert(sym_views(fs.entries@[e].terminals@) =~= Seq::<SymbolView>::empty());
                    assert(sym_set(fs.entries@[e].terminals@) =~= Set::<SymbolView>::empty());
                }
            }
            assert forall|e: int|
                0 <= e < fs.entries@.len() implies (#[trigger] fs.entries@[e]).terminals@.len()
                <= cand.len() by {}
            crate::tables::lemma_total_bound(fs.entries@, cand.len() as int);
            assert(first_sound(rv, fs@));
        }
        // Iterate to the fixed point: a full pass with no growth means
        // every rule's constraint already holds.
        let mut done = false;
        while !done
            invariant
                fs.wf(),
                fs@.dom() == crate::rule::lhs_set(rv),
                first_sound(rv, fs@),
                fs.entries@.len() == n_entries,
                first_rep_ok(fs.entries@, cand),
                0 <= crate::tables::total_terms(fs.entries@) <= bound,
                cand.finite(),
                done ==> first_closed_map(rv, fs@),
            decreases 2 * (bound + 1 - crate::tables::total_terms(fs.entries@)) + (
            if done {
                0int
            } else {
                1int
            }),
        {
            let ghost entries_pass = fs.entries@;
            let mut changed = false;
            let mut k: usize = 0;
            while k < self.rules.len()
                invariant
                    0 <= k <= self.rules@.len(),
                    fs.wf(),
                    fs@.dom() == crate::rule::lhs_set(rv),
                    first_sound(rv, fs@),
                    fs.entries@.len() == n_entries,
                    first_rep_ok(fs.entries@, cand),
                    0 <= crate::tables::total_terms(fs.entries@) <= bound,
                    crate::tables::total_terms(fs.entries@) >= crate::tables::total_terms(
                        entries_pass,
                    ),
                    changed ==> crate::tables::total_terms(fs.entries@)
                        >= crate::tables::total_terms(entries_pass) + 1,
                    !changed ==> fs.entries@ == entries_pass,
                    !changed ==> forall|k2: int|
                        0 <= k2 < k ==> #[trigger] first_rule_ok(rv, fs@, k2),
                decreases self.rules@.len() - k,
            {
                let ghost entries_rule = fs.entries@;
                let left = self.rules[k].left.dup();
                proof {
                    assert(sym_views(self.rules@[k as int].right@).len() > 0);
                    assert(fs@.dom().contains(left@));
                }
                let f0 = self.rules[k].right[0].dup();
                proof {
                    assert(f0@ == rv[k as int].right[0]);
                }
                if f0.is_terminal() {
                    if !fs.has_terminal(&left, &f0) {
                        proof {
                            lemma_first_of_terminal(rv, k as int);
                            assert(cand.contains(f0@)) by {
                                let cs = Seq::new(rv.len(), |k2: int| rv[k2].right[0]);
                                assert(cs[k as int] == f0@);
                                assert(cs.contains(f0@));
                            }
                        }
                        let ghost pre = fs.entries@;
                        let ghost pre_map = fs@;
                        fs.add_terminal(&left, f0);
                        changed = true;
                        proof {
                            let i2 = choose|i2: int|
                                0 <= i2 < pre.len() && (#[trigger] pre[i2]).key@ == left@
                                    && fs.entries@[i2].key@ == left@ && sym_views(
                                    fs.entries@[i2].terminals@,
                                ) == sym_views(pre[i2].terminals@).push(f0@)
                                    && fs.entries@[i2].terminals@.len() == pre[i2].terminals@.len()
                                    + 1 && (forall|j: int|
                                    0 <= j < pre.len() && j != i2 ==> fs.entries@[j] == pre[j]);
                            lemma_rep_after_add(pre, fs.entries@, cand, left@, f0@, i2);
                            assert(fs@.dom() =~= pre_map.dom());
                            assert(first_sound(rv, fs@)) by {
                                assert forall|a: SymbolView| #[trigger]
                                    fs@.dom().contains(a) implies fs@[a].subset_of(
                                    first_of(rv, a),
                                ) by {
                                    if a == left@ {
                                        assert(fs@[a] == pre_map[a].insert(f0@));
                                    } else {
                                        assert(fs@[a] == pre_map[a]);
                                    }
                                }
                            }
                            assert forall|e: int|
                                0 <= e < fs.entries@.len() implies (#[trigger] fs.entries@[e]).terminals@.len()
                                <= cand.len() by {
                                lemma_seq_distinct_in(sym_views(fs.entries@[e].terminals@), cand);
                            }
                            crate::tables::lemma_total_bound(fs.entries@, cand.len() as int);
                        }
                    }
                } else {
                    let ts = match fs.get(&f0) {
                        Some(ts) => dup_symbols(ts),
                        None => unreached(),
                    };
                    let ghost ts_set = sym_set(ts@);
                    proof {
                        assert(ts_set == fs@[f0@]);
                        assert(ts_set.subset_of(first_of(rv, f0@)));
                        assert(ts_set.subset_of(cand)) by {
                            crate::tables::lemma_first_dom(fs.entries@, f0@);
                            let e = choose|e: int|
                                0 <= e < fs.entries@.len() && (#[trigger] fs.entries@[e].key)@
                                    == f0@;
                            crate::tables::lemma_first_get(fs.entries@, e);
                        }
                    }
                    let mut j: usize = 0;
                    while j < ts.len()
                        invariant
                            0 <= j <= ts@.len(),
                            fs.wf(),
                            fs@.dom() == crate::rule::lhs_set(rv),
                            first_sound(rv, fs@),
                            fs.entries@.len() == n_entries,
                            first_rep_ok(fs.entries@, cand),
                            0 <= crate::tables::total_terms(fs.entries@) <= bound,
                            crate::tables::total_terms(fs.entries@)
                                >= crate::tables::total_terms(entries_pass),
                            changed ==> crate::tables::total_terms(fs.entries@)
                                >= crate::tables::total_terms(entries_pass) + 1,
                            !changed ==> fs.entries@ == entries_pass,
                            !changed ==> forall|k2: int|
                                0 <= k2 < k ==> #[trigger] first_rule_ok(rv, fs@, k2),
                            !changed ==> fs.entries@ == entries_rule,
                            !changed ==> forall|j2: int|
                                0 <= j2 < j ==> fs@[left@].contains(
                                    #[trigger] sym_views(ts@)[j2],
                                ),
                            ts_set.subset_of(first_of(rv, f0@)),
                            ts_set.subset_of(cand),
                            k < self.rules@.len(),
                        decreases ts@.len() - j,
                    {
                        let t = ts[j].dup();
                        proof {
                            assert(t@ == sym_views(ts@)[j as int]);
                            assert(ts_set.contains(t@)) by {
                                assert(sym_views(ts@).contains(t@));
                            }
                        }
                        if !fs.has_terminal(&left, &t) {
                            proof {
                                lemma_first_of_step(rv, k as int);
                                assert(first_of(rv, f0@).contains(t@));
                                assert(first_of(rv, rv[k as int].left).contains(t@));
                            }
                            let ghost pre = fs.entries@;
                            let ghost pre_map = fs@;
                            fs.add_terminal(&left, t);
                            changed = true;
                            proof {
                                let i2 = choose|i2: int|
                                    0 <= i2 < pre.len() && (#[trigger] pre[i2]).key@ == left@
                                        && fs.entries@[i2].key@ == left@ && sym_views(
                                        fs.entries@[i2].terminals@,
                                    ) == sym_views(pre[i2].terminals@).push(t@)
                                        && fs.entries@[i2].terminals@.len()
                                        == pre[i2].terminals@.len() + 1 && (forall|j2: int|
                                        0 <= j2 < pre.len() && j2 != i2 ==> fs.entries@[j2]
                                            == pre[j2]);
                                lemma_rep_after_add(pre, fs.entries@, cand, left@, t@, i2);
                                assert(fs@.dom() =~= pre_map.dom());
                                assert(first_sound(rv, fs@)) by {
                                    assert forall|a: SymbolView| #[trigger]
                                        fs@.dom().contains(a) implies fs@[a].subset_of(
                                        first_of(rv, a),
                                    ) by {
                                        if a == left@ {
                                            assert(fs@[a] == pre_map[a].insert(t@));
                                        } else {
                                            assert(fs@[a] == pre_map[a]);
                                        }
                                    }
                                }
                                assert forall|e: int|
                                    0 <= e < fs.entries@.len() implies (#[trigger] fs.entries@[e]).terminals@.len()
                                    <= cand.len() by {
                                    lemma_seq_distinct_in(
                                        sym_views(fs.entries@[e].terminals@),
                                        cand,
                                    );
                                }
                                crate::tables::lemma_total_bound(fs.entries@, cand.len() as int);
                            }
                        }
                        j += 1;
                    }
                    proof {
                        if !changed {
                            assert(first_rule_ok(rv, fs@, k as int)) by {
                                assert(fs@[f0@] == ts_set);
                                assert forall|t2: SymbolView|
                                    ts_set.contains(t2) implies fs@[rv[k as int].left].contains(
                                    t2,
                                ) by {
                                    let j2 = choose|j2: int|
                                        0 <= j2 < sym_views(ts@).len() && sym_views(ts@)[j2] == t2;
                                }
                            }
                        }
                    }
                }
                k += 1;
                proof {
                    if !changed {
                        assert(forall|k2: int|
                            0 <= k2 < k ==> #[trigger] first_rule_ok(rv, fs@, k2));
                    }
                }
            }
            if !changed {
                done = true;
                proof {
                    assert(first_closed_map(rv, fs@));
                }
            }
        }
        proof {
            lemma_first_of_least(rv, fs@);
            assert(fs@ =~= spec_first(rv)) by {
                assert forall|a: SymbolView| #[trigger]
                    fs@.dom().contains(a) implies fs@[a] == spec_first(rv)[a] by {
                    assert(fs@[a] =~= first_of(rv, a));
                }
            }
        }
        fs
    }

    /// Expands a kernel item set to its closure: the least set containing
    /// the kernel and closed under lookahead-propagating expansion of the
    /// nonterminals after the dots.
    #[verifier::loop_isolation(false)]
    pub fn compute_closure(&self, kernel: Vec<Lr1Item>, firsts: &FirstSets) -> (r: Vec<Lr1Item>)
        requires
            firsts.wf(),
            forall|k: int|
                0 <= k < self.rules@.len() ==> rule_rhs_defined(
                    #[trigger] rule_views(self.rules@)[k],
                    firsts@.dom(),
                ),
            forall|i: int|
                0 <= i < kernel@.len() ==> rule_rhs_defined(
                    (#[trigger] item_views(kernel@)[i]).rule,
                    firsts@.dom(),
                ),
        ensures
            item_set(r@) == spec_closure(rule_views(self.rules@), firsts@, item_set(kernel@)),
            item_views(r@).no_duplicates(),
    {
        let ghost rv = rule_views(self.rules@);
        let ghost fm = firsts@;
        let ghost kset = item_set(kernel@);
        let ghost cclo = spec_closure(rv, fm, kset);
        let ghost kviews = item_views(kernel@);
        let ghost las = rhs_syms(rv, rv.len()).union(
            rhs_syms(kviews.map_values(|it: ItemView| it.rule), kviews.len()),
        ).union(firsts_syms(firsts.entries@, firsts.entries@.len())).union(
            kviews.map_values(|it: ItemView| it.look).to_set(),
        );
        let ghost uset = item_univ(rv, rv.len(), las).union(kset);
        proof {
            broadcast use vstd::seq_lib::seq_to_set_is_finite;

            lemma_rhs_syms_finite(rv, rv.len());
            lemma_rhs_syms_finite(kviews.map_values(|it: ItemView| it.rule), kviews.len());
            lemma_firsts_syms_finite(firsts.entries@, firsts.entries@.len());
            lemma_item_univ_finite(rv, rv.len(), las);
            lemma_closure_has_kernel(rv, fm, kset);
            lemma_closure_closed(rv, fm, kset);
        }
        // Seed the worklist with the kernel, collapsing duplicates.
        let mut cur: Vec<Lr1Item> = Vec::new();
        let mut i: usize = 0;
        while i < kernel.len()
            invariant
                0 <= i <= kernel@.len(),
                item_views(cur@).no_duplicates(),
                forall|j: int|
                    0 <= j < cur@.len() ==> exists|m: int|
                        0 <= m < i && kviews[m] == #[trigger] item_views(cur@)[j],
                forall|m: int| 0 <= m < i ==> item_set(cur@).contains(#[trigger] kviews[m]),
            decreases kernel@.len() - i,
        {
            if !items_contain(&cur, &kernel[i]) {
                let ghost before = cur@;
                proof {
                    lemma_item_views_push(before, kernel[i as int]);
                    lemma_push_no_dup(item_views(before), kernel@[i as int]@);
                }
                cur.push(kernel[i].dup());
                proof {
                    assert(item_views(cur@) =~= item_views(before).push(kviews[i as int]));
                    assert(item_set(cur@) =~= item_set(before).insert(kviews[i as int]));
                }
            }
            i += 1;
        }
        proof {
            assert(item_set(cur@) =~= kset) by {
                assert forall|y: ItemView| item_set(cur@).contains(y) implies kset.contains(y) by {
                    let j = choose|j: int|
                        0 <= j < item_views(cur@).len() && item_views(cur@)[j] == y;
                    let m = choose|m: int| 0 <= m < kernel@.len() && kviews[m] == item_views(
                        cur@,
                    )[j];
                    assert(kviews[m] == y);
                    assert(kviews.contains(y));
                }
                assert forall|y: ItemView| kset.contains(y) implies item_set(cur@).contains(y) by {
                    let m = choose|m: int| 0 <= m < kviews.len() && kviews[m] == y;
                }
            }
            assert forall|j: int| 0 <= j < cur@.len() implies uset.contains(
                #[trigger] item_views(cur@)[j],
            ) by {
                assert(kset.contains(item_views(cur@)[j]));
            }
            assert forall|j: int| 0 <= j < cur@.len() implies las.contains(
                (#[trigger] item_views(cur@)[j]).look,
            ) by {
                let m = choose|m: int| 0 <= m < kviews.len() && kviews[m] == item_views(cur@)[j];
                assert(kviews.map_values(|it: ItemView| it.look)[m] == kviews[m].look);
                assert(kviews.map_values(|it: ItemView| it.look).contains(kviews[m].look));
            }
            assert forall|j: int| 0 <= j < cur@.len() implies rhs_in(
                (#[trigger] item_views(cur@)[j]).rule,
                las,
            ) by {
                let m = choose|m: int| 0 <= m < kviews.len() && kviews[m] == item_views(cur@)[j];
                let krules = kviews.map_values(|it: ItemView| it.rule);
                assert(krules[m] == kviews[m].rule);
                assert forall|jj: int|
                    0 <= jj < kviews[m].rule.right.len() implies las.contains(
                    #[trigger] kviews[m].rule.right[jj],
                ) by {
                    lemma_rhs_syms_contains(krules, krules.len(), m, jj);
                }
            }
            assert forall|j: int| 0 <= j < cur@.len() implies rule_rhs_defined(
                (#[trigger] item_views(cur@)[j]).rule,
                fm.dom(),
            ) by {
                let m = choose|m: int| 0 <= m < kviews.len() && kviews[m] == item_views(cur@)[j];
            }
            lemma_seq_distinct_in(item_views(cur@), uset);
        }
        // Expand items until every item's expansions are present.
        let mut w: usize = 0;
        while w < cur.len()
            invariant
                0 <= w <= cur@.len(),
                item_views(cur@).no_duplicates(),
                kset.subset_of(item_set(cur@)),
                item_set(cur@).subset_of(cclo),
                forall|j: int|
                    0 <= j < cur@.len() ==> uset.contains(#[trigger] item_views(cur@)[j]),
                forall|j: int|
                    0 <= j < cur@.len() ==> las.contains((#[trigger] item_views(cur@)[j]).look),
                forall|j: int|
                    0 <= j < cur@.len() ==> rhs_in((#[trigger] item_views(cur@)[j]).rule, las),
                forall|j: int|
                    0 <= j < cur@.len() ==> rule_rhs_defined(
                        (#[trigger] item_views(cur@)[j]).rule,
                        fm.dom(),
                    ),
                forall|j: int|
                    0 <= j < w ==> item_closed_in(rv, fm, item_set(cur@), #[trigger] item_views(
                        cur@,
                    )[j]),
                cur@.len() <= uset.len(),
            decreases uset.len() - w,
        {
            let item = cur[w].dup();
            let ghost itemv = item_views(cur@)[w as int];
            let dot = item.1;
            let rlen = item.0.right.len();
            if dot < rlen {
                let s_at_dot = item.0.right[dot].dup();
                let ghost nv = itemv.rule.right[dot as int];
                proof {
                    assert(sym_views(item.0.right@)[dot as int] == s_at_dot@);
                }
                if s_at_dot.is_nonterminal() {
                    let ghost laset_item = lookahead_set(fm, itemv);
                    let mut lookaheads: Vec<Symbol>;
                    if dot + 1 < rlen {
                        let f = item.0.right[dot + 1].dup();
                        proof {
                            assert(sym_views(item.0.right@)[dot + 1] == f@);
                            assert(itemv.rule.right[dot + 1] == f@);
                        }
                        if f.is_nonterminal() {
                            proof {
                                assert(fm.dom().contains(f@));
                            }
                            let ts = match firsts.get(&f) {
                                Some(ts) => ts,
                                None => unreached(),
                            };
                            lookaheads = dup_symbols(ts);
                            proof {
                                assert(sym_set(lookaheads@) =~= fm[f@]);
                                assert(laset_item == fm[f@]);
                                lemma_firsts_value_in(firsts.entries@, f@);
                                assert forall|j: int|
                                    0 <= j < lookaheads@.len() implies las.contains(
                                    #[trigger] sym_views(lookaheads@)[j],
                                ) by {
                                    assert(sym_views(lookaheads@).contains(
                                        sym_views(lookaheads@)[j],
                                    ));
                                    assert(fm[f@].contains(sym_views(lookaheads@)[j]));
                                }
                            }
                        } else {
                            lookaheads = Vec::new();
                            lookaheads.push(f);
                            proof {
                                assert(sym_set(lookaheads@) =~= set![itemv.rule.right[dot + 1]])
                                    by {
                                    assert(sym_views(lookaheads@) =~= seq![
                                        itemv.rule.right[dot + 1],
                                    ]);
                                    assert(sym_views(lookaheads@)[0] == itemv.rule.right[dot + 1]);
                                    assert(sym_views(lookaheads@).contains(
                                        itemv.rule.right[dot + 1],
                                    ));
                                }
                                assert(laset_item == set![itemv.rule.right[dot + 1]]);
                            }
                        }
                    } else {
                        lookaheads = Vec::new();
                        lookaheads.push(item.2.dup());
                        proof {
                            assert(sym_set(lookaheads@) =~= set![itemv.look]) by {
                                assert(sym_views(lookaheads@) =~= seq![itemv.look]);
                                assert(sym_views(lookaheads@)[0] == itemv.look);
                                assert(sym_views(lookaheads@).contains(itemv.look));
                            }
                            assert(laset_item == set![itemv.look]);
                        }
                    }
                    proof {
                        assert(sym_set(lookaheads@) == laset_item);
                        assert forall|j: int| 0 <= j < lookaheads@.len() implies las.contains(
                            #[trigger] sym_views(lookaheads@)[j],
                        ) by {}
                    }
                    let mut k: usize = 0;
                    while k < self.rules.len()
                        invariant
                            0 <= k <= self.rules@.len(),
                            item_views(cur@).no_duplicates(),
                            kset.subset_of(item_set(cur@)),
                            item_set(cur@).subset_of(cclo),
                            forall|j: int|
                                0 <= j < cur@.len() ==> uset.contains(
                                    #[trigger] item_views(cur@)[j],
                                ),
                            forall|j: int|
                                0 <= j < cur@.len() ==> las.contains(
                                    (#[trigger] item_views(cur@)[j]).look,
                                ),
                            forall|j: int|
                                0 <= j < cur@.len() ==> rhs_in(
                                    (#[trigger] item_views(cur@)[j]).rule,
                                    las,
                                ),
                            forall|j: int|
                                0 <= j < cur@.len() ==> rule_rhs_defined(
                                    (#[trigger] item_views(cur@)[j]).rule,
                                    fm.dom(),
                                ),
                            forall|j: int|
                                0 <= j < w ==> item_closed_in(
                                    rv,
                                    fm,
                                    item_set(cur@),
                                    #[trigger] item_views(cur@)[j],
                                ),
                            cur@.len() <= uset.len(),
                            w < cur@.len(),
                            item_views(cur@)[w as int] == itemv,
                            expansions_done(rv, k as int, nv, laset_item, item_set(cur@)),
                        decreases self.rules@.len() - k,
                    {
                        if self.rules[k].left.sym_eq(&s_at_dot) {
                            let mut li: usize = 0;
                            while li < lookaheads.len()
                                invariant
                                    0 <= li <= lookaheads@.len(),
                                    item_views(cur@).no_duplicates(),
                                    kset.subset_of(item_set(cur@)),
                                    item_set(cur@).subset_of(cclo),
                                    forall|j: int|
                                        0 <= j < cur@.len() ==> uset.contains(
                                            #[trigger] item_views(cur@)[j],
                                        ),
                                    forall|j: int|
                                        0 <= j < cur@.len() ==> las.contains(
                                            (#[trigger] item_views(cur@)[j]).look,
                                        ),
                                    forall|j: int|
                                        0 <= j < cur@.len() ==> rhs_in(
                                            (#[trigger] item_views(cur@)[j]).rule,
                                            las,
                                        ),
                                    forall|j: int|
                                        0 <= j < cur@.len() ==> rule_rhs_defined(
                                            (#[trigger] item_views(cur@)[j]).rule,
                                            fm.dom(),
                                        ),
                                    forall|j: int|
                                        0 <= j < w ==> item_closed_in(
                                            rv,
                                            fm,
                                            item_set(cur@),
                                            #[trigger] item_views(cur@)[j],
                                        ),
                                    cur@.len() <= uset.len(),
                                    w < cur@.len(),
                                    item_views(cur@)[w as int] == itemv,
                                    expansions_done(rv, k as int, nv, laset_item, item_set(cur@)),
                                    k < self.rules@.len(),
                                    rv[k as int].left == nv,
                                    forall|j: int|
                                        0 <= j < li ==> item_set(cur@).contains(
                                            ItemView {
                                                rule: rv[k as int],
                                                dot: 0,
                                                look: #[trigger] sym_views(lookaheads@)[j],
                                            },
                                        ),
                                decreases lookaheads@.len() - li,
                            {
                                let cand = Lr1Item(self.rules[k].dup(), 0, lookaheads[li].dup());
                                let ghost la = sym_views(lookaheads@)[li as int];
                                proof {
                                    assert(cand@ =~= (ItemView {
                                        rule: rv[k as int],
                                        dot: 0,
                                        look: la,
                                    }));
                                    assert(laset_item.contains(la)) by {
                                        assert(sym_views(lookaheads@).contains(la));
                                    }
                                    assert(item_expands_to(rv, fm, itemv, k as int, la));
                                    assert(item_set(cur@).contains(itemv)) by {
                                        assert(item_views(cur@).contains(itemv));
                                    }
                                    assert(cclo.contains(itemv));
                                    assert(item_closed_in(rv, fm, cclo, itemv));
                                    assert(cclo.contains(cand@));
                                    lemma_item_univ_contains(rv, rv.len(), las, k as int, cand@);
                                    assert(uset.contains(cand@));
                                }
                                if !items_contain(&cur, &cand) {
                                    let ghost before = cur@;
                                    proof {
                                        lemma_item_views_push(before, cand);
                                        lemma_push_no_dup(item_views(before), cand@);
                                    }
                                    cur.push(cand);
                                    proof {
                                        assert forall|j: int| 0 <= j < w implies item_closed_in(
                                            rv,
                                            fm,
                                            item_set(cur@),
                                            #[trigger] item_views(cur@)[j],
                                        ) by {
                                            assert(item_views(cur@)[j] == item_views(before)[j]);
                                            lemma_closed_in_monotone(
                                                rv,
                                                fm,
                                                item_set(before),
                                                item_set(cur@),
                                                item_views(before)[j],
                                            );
                                        }
                                        assert forall|jj: int|
                                            0 <= jj < cand@.rule.right.len() implies las.contains(
                                            #[trigger] cand@.rule.right[jj],
                                        ) by {
                                            lemma_rhs_syms_contains(rv, rv.len(), k as int, jj);
                                        }
                                        lemma_seq_distinct_in(item_views(cur@), uset);
                                    }
                                }
                                li += 1;
                            }
                            proof {
                                assert forall|k2: int, la2: SymbolView|
                                    #![trigger rv[k2], laset_item.contains(la2)]
                                    0 <= k2 < k + 1 && rv[k2].left == nv && laset_item.contains(
                                        la2,
                                    ) implies item_set(cur@).contains(
                                    ItemView { rule: rv[k2], dot: 0, look: la2 },
                                ) by {
                                    if k2 == k {
                                        assert(sym_set(lookaheads@).contains(la2));
                                        let j = choose|j: int|
                                            0 <= j < sym_views(lookaheads@).len() && sym_views(
                                                lookaheads@,
                                            )[j] == la2;
                                    }
                                }
                            }
                        } else {
                            proof {
                                assert(rv[k as int].left != nv);
                            }
                        }
                        k += 1;
                    }
                    proof {
                        assert(item_closed_in(rv, fm, item_set(cur@), itemv)) by {
                            assert forall|kk: int, la2: SymbolView|
                                #![trigger rv[kk], lookahead_set(fm, itemv).contains(la2)]
                                item_expands_to(rv, fm, itemv, kk, la2) implies item_set(
                                cur@,
                            ).contains(ItemView { rule: rv[kk], dot: 0, look: la2 }) by {
                                assert(itemv.rule.right[itemv.dot] == nv);
                            }
                        }
                    }
                } else {
                    proof {
                        assert(item_closed_in(rv, fm, item_set(cur@), itemv)) by {
                            assert(itemv.rule.right[itemv.dot] == s_at_dot@);
                        }
                    }
                }
            } else {
                proof {
                    assert(item_closed_in(rv, fm, item_set(cur@), itemv)) by {
                        assert(!(0 <= itemv.dot < itemv.rule.right.len()));
                    }
                }
            }
            w += 1;
        }
        proof {
            assert(closed_under_expansion(rv, fm, item_set(cur@))) by {
                assert forall|it: ItemView| #[trigger]
                    item_set(cur@).contains(it) implies item_closed_in(
                    rv,
                    fm,
                    item_set(cur@),
                    it,
                ) by {
                    let j = choose|j: int|
                        0 <= j < item_views(cur@).len() && item_views(cur@)[j] == it;
                }
            }
            lemma_closure_least(rv, fm, kset, item_set(cur@));
            assert(item_set(cur@) =~= cclo);
        }
        cur
    }

    /// Builds the canonical collection of LR(1) states breadth-first:
    /// state 0 is the closure of the initial kernel; for every symbol
    /// after a dot, the advanced kernel is closed and either merged with
    /// an equal existing state or appended as a new one, and the
    /// transition is recorded either way.
    #[verifier::loop_isolation(false)]
    pub fn build_automaton(&self, firsts: &FirstSets, start_rule: &Rule) -> (r: (
        Vec<Vec<Lr1Item>>,
        crate::tables::TransitionTable,
    ))
        requires
            firsts.wf(),
            forall|k: int|
                0 <= k < self.rules@.len() ==> rule_rhs_defined(
                    #[trigger] rule_views(self.rules@)[k],
                    firsts@.dom(),
                ),
            exists|k: int|
                0 <= k < self.rules@.len() && #[trigger] rule_views(self.rules@)[k] == start_rule@,
        ensures
            automaton_ok(
                rule_views(self.rules@),
                firsts@,
                start_rule@,
                state_views(r.0@),
                r.1@,
            ),
            r.1.wf(),
    {
        let ghost rv = rule_views(self.rules@);
        let ghost fm = firsts@;
        let ghost dollar = SymbolView::Terminal("$"@);
        let ghost las = rhs_syms(rv, rv.len()).union(
            firsts_syms(firsts.entries@, firsts.entries@.len()),
        ).union(set![dollar]);
        let ghost ubfs = item_univ(rv, rv.len(), las);
        let ghost ks = choose|k: int| 0 <= k < rv.len() && #[trigger] rv[k] == start_rule@;
        proof {
            lemma_rhs_syms_finite(rv, rv.len());
            lemma_firsts_syms_finite(firsts.entries@, firsts.entries@.len());
            lemma_item_univ_finite(rv, rv.len(), las);
            assert forall|key: SymbolView| #[trigger]
                fm.dom().contains(key) implies fm[key].subset_of(las) by {
                lemma_firsts_value_in(firsts.entries@, key);
            }
            lemma_univ_absorbs(rv, fm, las);
        }
        let mut kernel0: Vec<Lr1Item> = Vec::new();
        kernel0.push(Lr1Item(start_rule.dup(), 0, Symbol::Terminal("$".to_owned())));
        proof {
            assert(item_views(kernel0@) =~= seq![
                ItemView { rule: start_rule@, dot: 0, look: dollar },
            ]);
            assert(item_set(kernel0@) =~= init_kernel(start_rule@)) by {
                assert(item_views(kernel0@)[0] == (ItemView {
                    rule: start_rule@,
                    dot: 0,
                    look: dollar,
                }));
                assert(item_views(kernel0@).contains(
                    ItemView { rule: start_rule@, dot: 0, look: dollar },
                ));
            }
            assert forall|i: int|
                0 <= i < kernel0@.len() implies rule_rhs_defined(
                (#[trigger] item_views(kernel0@)[i]).rule,
                fm.dom(),
            ) by {
                assert(item_views(kernel0@)[i].rule == rv[ks]);
            }
            assert(init_kernel(start_rule@).subset_of(ubfs)) by {
                lemma_item_univ_contains(
                    rv,
                    rv.len(),
                    las,
                    ks,
                    ItemView { rule: start_rule@, dot: 0, look: dollar },
                );
            }
        }
        let c0 = self.compute_closure(kernel0, firsts);
        proof {
            lemma_closure_members(rv, fm, init_kernel(start_rule@), ubfs);
        }
        let mut states: Vec<Vec<Lr1Item>> = Vec::new();
        states.push(c0);
        let mut trans = crate::tables::TransitionTable::new();
        let mut index: usize = 0;
        proof {
            assert(state_views(states@)[0] == item_set(c0@));
            assert(two_pow(ubfs.len()) >= 1) by {
                assert forall|n: nat| two_pow(n) >= 1 by {
                    lemma_two_pow_pos(n);
                }
            }
        }
        while index < states.len()
            invariant
                trans.wf(),
                0 <= index <= states@.len(),
                bfs_inv(rv, fm, start_rule@, ubfs, states@, trans@, index as int),
                forall|kk: (int, SymbolView)| #[trigger]
                    trans@.dom().contains(kk) ==> kk.0 < index,
            decreases two_pow(ubfs.len()) - index,
        {
            let ghost sv_i = item_set(states@[index as int]@);
            proof {
                assert(state_views(states@)[index as int] == sv_i);
            }
            // The distinct symbols standing after a dot in this state.
            let mut edges: Vec<Symbol> = Vec::new();
            let mut m: usize = 0;
            while m < states[index].len()
                invariant
                    0 <= m <= states@[index as int]@.len(),
                    index < states@.len(),
                    sym_views(edges@).no_duplicates(),
                    forall|j: int|
                        0 <= j < edges@.len() ==> edge_of(sv_i, #[trigger] sym_views(edges@)[j]),
                    forall|m2: int|
                        #![trigger item_views(states@[index as int]@)[m2]]
                        0 <= m2 < m ==> {
                            let itv = item_views(states@[index as int]@)[m2];
                            !(0 <= itv.dot < itv.rule.right.len()) || sym_set(edges@).contains(
                                itv.rule.right[itv.dot],
                            )
                        },
                decreases states@[index as int]@.len() - m,
            {
                let it = &states[index][m];
                let ghost itv = item_views(states@[index as int]@)[m as int];
                if it.1 < it.0.right.len() {
                    let e = it.0.right[it.1].dup();
                    proof {
                        assert(sym_views(it.0.right@)[it.1 as int] == e@);
                        assert(itv.rule.right[itv.dot] == e@);
                    }
                    if !syms_contain(&edges, &e) {
                        proof {
                            lemma_push_no_dup(sym_views(edges@), e@);
                            lemma_to_set_push(sym_views(edges@), e@);
                            assert(sym_views(edges@.push(e)) =~= sym_views(edges@).push(e@));
                            assert(edge_of(sv_i, e@)) by {
                                assert(item_views(states@[index as int]@).contains(itv));
                                assert(sv_i.contains(itv));
                            }
                        }
                        edges.push(e);
                    } else {
                        proof {
                            assert(sym_set(edges@).contains(itv.rule.right[itv.dot]));
                        }
                    }
                }
                m += 1;
            }
            proof {
                assert forall|e: SymbolView| #[trigger]
                    edge_of(sv_i, e) implies sym_set(edges@).contains(e) by {
                    let it = choose|it: ItemView| #[trigger]
                        sv_i.contains(it) && 0 <= it.dot < it.rule.right.len()
                            && it.rule.right[it.dot] == e;
                    let m2 = choose|m2: int|
                        0 <= m2 < item_views(states@[index as int]@).len() && item_views(
                            states@[index as int]@,
                        )[m2] == it;
                }
            }
            // Close the advanced kernel over every edge, merging equal
            // states and recording the transition.
            let mut je: usize = 0;
            while je < edges.len()
                invariant
                    trans.wf(),
                    index < states@.len(),
                    0 <= je <= edges@.len(),
                    bfs_inv(rv, fm, start_rule@, ubfs, states@, trans@, index as int),
                    sv_i == item_set(states@[index as int]@),
                    sv_i == state_views(states@)[index as int],
                    sym_views(edges@).no_duplicates(),
                    forall|j: int|
                        0 <= j < edges@.len() ==> edge_of(sv_i, #[trigger] sym_views(edges@)[j]),
                    forall|e: SymbolView| #[trigger]
                        edge_of(sv_i, e) ==> sym_set(edges@).contains(e),
                    forall|j: int|
                        0 <= j < je ==> trans@.dom().contains(
                            (index as int, #[trigger] sym_views(edges@)[j]),
                        ),
                    forall|kk: (int, SymbolView)| #[trigger]
                        trans@.dom().contains(kk) ==> kk.0 < index || (kk.0 == index && exists|
                            j: int,
                        |
                            0 <= j < je && #[trigger] sym_views(edges@)[j] == kk.1),
                decreases edges@.len() - je,
            {
                let e = edges[je].dup();
                let ghost ev = sym_views(edges@)[je as int];
                proof {
                    assert(e@ == ev);
                }
                let mut kern: Vec<Lr1Item> = Vec::new();
                let mut m2: usize = 0;
                while m2 < states[index].len()
                    invariant
                        0 <= m2 <= states@[index as int]@.len(),
                        index < states@.len(),
                        sv_i == item_set(states@[index as int]@),
                        forall|j: int|
                            0 <= j < kern@.len() ==> advance_set(sv_i, ev).contains(
                                #[trigger] item_views(kern@)[j],
                            ),
                        forall|j: int|
                            0 <= j < kern@.len() ==> ubfs.contains(#[trigger] item_views(kern@)[j]),
                        forall|j: int|
                            0 <= j < kern@.len() ==> rule_rhs_defined(
                                (#[trigger] item_views(kern@)[j]).rule,
                                fm.dom(),
                            ),
                        forall|m3: int|
                            #![trigger item_views(states@[index as int]@)[m3]]
                            0 <= m3 < m2 ==> {
                                let itv = item_views(states@[index as int]@)[m3];
                                !(0 <= itv.dot < itv.rule.right.len() && itv.rule.right[itv.dot]
                                    == ev) || item_set(kern@).contains(
                                    ItemView {
                                        rule: itv.rule,
                                        dot: itv.dot + 1,
                                        look: itv.look,
                                    },
                                )
                            },
                    decreases states@[index as int]@.len() - m2,
                {
                    let it = &states[index][m2];
                    let ghost itv = item_views(states@[index as int]@)[m2 as int];
                    if it.1 < it.0.right.len() && it.0.right[it.1].sym_eq(&e) {
                        let adv = Lr1Item(it.0.dup(), it.1 + 1, it.2.dup());
                        proof {
                            assert(sym_views(it.0.right@)[it.1 as int] == it.0.right@[it.1 as int]@);
                            assert(itv.rule.right[itv.dot] == ev);
                            assert(adv@ =~= (ItemView {
                                rule: itv.rule,
                                dot: itv.dot + 1,
                                look: itv.look,
                            }));
                            assert(sv_i.contains(itv)) by {
                                assert(item_views(states@[index as int]@).contains(itv));
                            }
                            assert(advance_set(sv_i, ev).contains(adv@));
                            assert(ubfs.contains(itv)) by {
                                assert(state_views(states@)[index as int].subset_of(ubfs));
                            }
                            lemma_item_univ_inv(rv, rv.len(), las, itv);
                            let k2 = choose|k2: int|
                                0 <= k2 < rv.len() && itv.rule == #[trigger] rv[k2] && 0 <= itv.dot
                                    <= rv[k2].right.len();
                            lemma_item_univ_contains(rv, rv.len(), las, k2, adv@);
                            lemma_item_views_push(kern@, adv);
                        }
                        kern.push(adv);
                    }
                    m2 += 1;
                }
                proof {
                    assert(item_set(kern@) =~= advance_set(sv_i, ev)) by {
                        assert forall|y: ItemView|
                            item_set(kern@).contains(y) implies advance_set(sv_i, ev).contains(
                            y,
                        ) by {
                            let j = choose|j: int|
                                0 <= j < item_views(kern@).len() && item_views(kern@)[j] == y;
                        }
                        assert forall|y: ItemView|
                            advance_set(sv_i, ev).contains(y) implies item_set(kern@).contains(
                            y,
                        ) by {
                            let it2 = choose|it2: ItemView| #[trigger]
                                sv_i.contains(it2) && 0 <= it2.dot < it2.rule.right.len()
                                    && it2.rule.right[it2.dot] == ev && y == (ItemView {
                                    rule: it2.rule,
                                    dot: it2.dot + 1,
                                    look: it2.look,
                                });
                            let m3 = choose|m3: int|
                                0 <= m3 < item_views(states@[index as int]@).len() && item_views(
                                    states@[index as int]@,
                                )[m3] == it2;
                        }
                    }
                }
                let cand = self.compute_closure(kern, firsts);
                proof {
                    assert forall|y: ItemView|
                        advance_set(sv_i, ev).contains(y) implies ubfs.contains(y) by {
                        let j = choose|j: int|
                            0 <= j < item_views(kern@).len() && item_views(kern@)[j] == y;
                    }
                    lemma_closure_members(rv, fm, advance_set(sv_i, ev), ubfs);
                    assert(!trans@.dom().contains((index as int, ev))) by {
                        if trans@.dom().contains((index as int, ev)) {
                            let j = choose|j: int|
                                0 <= j < je && #[trigger] sym_views(edges@)[j] == ev;
                        }
                    }
                }
                let target: usize;
                match find_state(&states, &cand) {
                    Some(pos) => {
                        target = pos;
                    },
                    None => {
                        target = states.len();
                        let ghost old_states = states@;
                        states.push(cand);
                        proof {
                            assert(state_views(states@) =~= state_views(old_states).push(
                                item_set(cand@),
                            ));
                            assert forall|i: int, j: int|
                                0 <= i < j < states@.len() implies #[trigger] state_views(
                                states@,
                            )[i] != #[trigger] state_views(states@)[j] by {
                                if j == states@.len() - 1 {
                                    assert(state_views(states@)[i] == item_set(old_states[i]@));
                                }
                            }
                            assert(state_views(states@).no_duplicates());
                            state_views(states@).unique_seq_to_set();
                            let fam = state_views(states@).to_set();
                            assert forall|s: Set<ItemView>| #[trigger]
                                fam.contains(s) implies s.subset_of(ubfs) by {
                                let j = choose|j: int|
                                    0 <= j < state_views(states@).len() && state_views(
                                        states@,
                                    )[j] == s;
                            }
                            broadcast use vstd::seq_lib::seq_to_set_is_finite;

                            lemma_distinct_subsets_count(fam, ubfs);
                        }
                    },
                }
                proof {
                    assert(state_views(states@)[target as int] == item_set(cand@));
                }
                trans.insert_new(index, e, target);
                je += 1;
                proof {
                    assert forall|kk: (int, SymbolView)| #[trigger]
                        trans@.dom().contains(kk) implies kk.0 < index || (kk.0 == index && exists|
                        j: int,
                    |
                        0 <= j < je && #[trigger] sym_views(edges@)[j] == kk.1) by {
                        if kk == (index as int, ev) {
                            assert(sym_views(edges@)[je - 1] == kk.1);
                        }
                    }
                }
            }
            index += 1;
            proof {
                assert forall|i2: int, e: SymbolView|
                    0 <= i2 < index && #[trigger] edge_of(
                        state_views(states@)[i2],
                        e,
                    ) implies trans@.dom().contains((i2, e)) by {
                    if i2 == index - 1 {
                        assert(sym_set(edges@).contains(e));
                        let j = choose|j: int|
                            0 <= j < sym_views(edges@).len() && sym_views(edges@)[j] == e;
                    }
                }
            }
        }
        proof {
            assert forall|i2: int, it: ItemView|
                0 <= i2 < state_views(states@).len() && #[trigger] state_views(
                    states@,
                )[i2].contains(
                    it,
                ) implies 0 <= it.dot <= it.rule.right.len() && exists|k: int|
                0 <= k < rv.len() && it.rule == #[trigger] rv[k] by {
                assert(ubfs.contains(it));
                lemma_item_univ_inv(rv, rv.len(), las, it);
                let k2 = choose|k2: int|
                    0 <= k2 < rv.len() && it.rule == #[trigger] rv[k2] && 0 <= it.dot
                        <= rv[k2].right.len();
            }
        }
        (states, trans)
    }

    /// The declared start symbol exists and is a nonterminal.
    pub open spec fn spec_start_ok(&self) -> bool {
        self.starting_symbol matches Some(s) && s@ is Nonterminal
    }

    /// The name of the declared start symbol.
    pub open spec fn spec_start_name(&self) -> Seq<char> {
        match self.starting_symbol {
            Some(Symbol::Nonterminal(n)) => n@,
            _ => Seq::empty(),
        }
    }

    /// The accumulated rules with the augmented start rule appended last.
    pub open spec fn spec_aug(&self) -> Seq<RuleView> {
        rule_views(self.rules@).push(aug_rule_view(self.spec_start_name()))
    }

    /// Fills the action table: for every state and every item in it, a
    /// fully-consumed item writes `Accept` (augmented start rule) or
    /// `Reduce` under its lookahead, and an item with a terminal after
    /// the dot writes `Shift` along the recorded transition. Writes for
    /// the same key silently overwrite each other: the last wins.
    #[verifier::loop_isolation(false)]
    fn build_action_table(
        &self,
        states: &Vec<Vec<Lr1Item>>,
        trans: &crate::tables::TransitionTable,
        aug_left: &Symbol,
        Ghost(fm): Ghost<Map<SymbolView, Set<SymbolView>>>,
        Ghost(startv): Ghost<RuleView>,
    ) -> (r: crate::tables::ActionTable)
        requires
            trans.wf(),
            automaton_ok(rule_views(self.rules@), fm, startv, state_views(states@), trans@),
        ensures
            r.wf(),
            action_ok(rule_views(self.rules@), aug_left@, state_views(states@), trans@, r@),
    {
        let ghost rv = rule_views(self.rules@);
        let ghost sv = state_views(states@);
        let ghost al = aug_left@;
        let mut action = crate::tables::ActionTable::new();
        let mut i: usize = 0;
        while i < states.len()
            invariant
                action.wf(),
                0 <= i <= states@.len(),
                forall|kk: (int, SymbolView)| #[trigger]
                    action@.dom().contains(kk) ==> 0 <= kk.0 < sv.len() && exists|it: ItemView|
                        #[trigger] sv[kk.0].contains(it) && item_demands(
                            rv,
                            al,
                            trans@,
                            kk.0,
                            it,
                            kk.1,
                            action@[kk],
                        ),
                forall|i2: int, it: ItemView, term: SymbolView, a: crate::parser::ActionView|
                    #![trigger sv[i2].contains(it), item_demands(rv, al, trans@, i2, it, term, a)]
                    0 <= i2 < i && sv[i2].contains(it) && item_demands(
                        rv,
                        al,
                        trans@,
                        i2,
                        it,
                        term,
                        a,
                    ) ==> action@.dom().contains((i2, term)),
            decreases states@.len() - i,
        {
            let mut n: usize = 0;
            while n < states[i].len()
                invariant
                    action.wf(),
                    i < states@.len(),
                    0 <= n <= states@[i as int]@.len(),
                    forall|kk: (int, SymbolView)| #[trigger]
                        action@.dom().contains(kk) ==> 0 <= kk.0 < sv.len() && exists|it: ItemView|
                            #[trigger] sv[kk.0].contains(it) && item_demands(
                                rv,
                                al,
                                trans@,
                                kk.0,
                                it,
                                kk.1,
                                action@[kk],
                            ),
                    forall|i2: int, it: ItemView, term: SymbolView, a: crate::parser::ActionView|
                        #![trigger sv[i2].contains(it), item_demands(rv, al, trans@, i2, it, term, a)]
                        0 <= i2 < i && sv[i2].contains(it) && item_demands(
                            rv,
                            al,
                            trans@,
                            i2,
                            it,
                            term,
                            a,
                        ) ==> action@.dom().contains((i2, term)),
                    forall|n2: int, term: SymbolView, a: crate::parser::ActionView|
                        #![trigger item_demands(rv, al, trans@, i as int, item_views(states@[i as int]@)[n2], term, a)]
                        0 <= n2 < n && item_demands(
                            rv,
                            al,
                            trans@,
                            i as int,
                            item_views(states@[i as int]@)[n2],
                            term,
                            a,
                        ) ==> action@.dom().contains((i as int, term)),
                decreases states@[i as int]@.len() - n,
            {
                let it = &states[i][n];
                let ghost itv = item_views(states@[i as int]@)[n as int];
                proof {
                    assert(sv[i as int].contains(itv)) by {
                        assert(item_views(states@[i as int]@).contains(itv));
                    }
                    assert(0 <= itv.dot <= itv.rule.right.len());
                }
                let ghost old_am = action@;
                let ghost mut newkey: (int, SymbolView) = (0int, SymbolView::Terminal(Seq::empty()));
                let mut wrote = false;
                if it.1 >= it.0.right.len() {
                    proof {
                        assert(itv.dot == itv.rule.right.len());
                    }
                    if it.0.left.sym_eq(aug_left) {
                        action.insert(i, it.2.dup(), crate::parser::Action::Accept);
                        wrote = true;
                        proof {
                            newkey = (i as int, itv.look);
                            assert(item_demands(
                                rv,
                                al,
                                trans@,
                                i as int,
                                itv,
                                itv.look,
                                crate::parser::ActionView::Accept,
                            ));
                            assert(action@[newkey] == crate::parser::ActionView::Accept);
                        }
                    } else {
                        let ridx = find_rule_index(&self.rules, &it.0);
                        action.insert(i, it.2.dup(), crate::parser::Action::Reduce(ridx));
                        wrote = true;
                        proof {
                            newkey = (i as int, itv.look);
                            assert(item_demands(
                                rv,
                                al,
                                trans@,
                                i as int,
                                itv,
                                itv.look,
                                crate::parser::ActionView::Reduce(ridx as int),
                            ));
                            assert(action@[newkey] == crate::parser::ActionView::Reduce(
                                ridx as int,
                            ));
                        }
                    }
                } else {
                    let t = it.0.right[it.1].dup();
                    proof {
                        assert(sym_views(it.0.right@)[it.1 as int] == t@);
                        assert(t@ == itv.rule.right[itv.dot]);
                    }
                    if t.is_terminal() {
                        proof {
                            assert(edge_of(sv[i as int], t@));
                        }
                        let tgt = match trans.get(i, &t) {
                            Some(j) => j,
                            None => unreached(),
                        };
                        let ghost tv = t@;
                        action.insert(i, t, crate::parser::Action::Shift(tgt));
                        wrote = true;
                        proof {
                            newkey = (i as int, tv);
                            assert(item_demands(
                                rv,
                                al,
                                trans@,
                                i as int,
                                itv,
                                tv,
                                crate::parser::ActionView::Shift(tgt as int),
                            ));
                            assert(action@[newkey] == crate::parser::ActionView::Shift(
                                tgt as int,
                            ));
                        }
                    }
                }
                proof {
                    if wrote {
                        assert(action@ == old_am.insert(
                            newkey,
                            action@[newkey],
                        ));
                        assert forall|kk: (int, SymbolView)| #[trigger]
                            action@.dom().contains(kk) implies 0 <= kk.0 < sv.len() && exists|
                            it2: ItemView,
                        |
                            #[trigger] sv[kk.0].contains(it2) && item_demands(
                                rv,
                                al,
                                trans@,
                                kk.0,
                                it2,
                                kk.1,
                                action@[kk],
                            ) by {
                            if kk == newkey {
                                assert(sv[i as int].contains(itv) && item_demands(
                                    rv,
                                    al,
                                    trans@,
                                    i as int,
                                    itv,
                                    kk.1,
                                    action@[kk],
                                ));
                            } else {
                                assert(old_am.dom().contains(kk) && action@[kk] == old_am[kk]);
                            }
                        }
                    }
                    // The current item's demands all lead to a recorded key.
                    assert forall|term: SymbolView, a: crate::parser::ActionView|
                        item_demands(rv, al, trans@, i as int, itv, term, a) implies
                        action@.dom().contains((i as int, term)) by {
                        if itv.dot == itv.rule.right.len() {
                            assert(term == itv.look);
                        } else {
                            assert(term == itv.rule.right[itv.dot] && term is Terminal);
                        }
                    }
                }
                n += 1;
            }
            i += 1;
            proof {
                assert forall|i2: int, it: ItemView, term: SymbolView, a: crate::parser::ActionView|
                    0 <= i2 < i && #[trigger] sv[i2].contains(it) && #[trigger] item_demands(
                        rv,
                        al,
                        trans@,
                        i2,
                        it,
                        term,
                        a,
                    ) implies action@.dom().contains((i2, term)) by {
                    if i2 == i - 1 {
                        let n2 = choose|n2: int|
                            0 <= n2 < item_views(states@[i2]@).len() && item_views(
                                states@[i2]@,
                            )[n2] == it;
                    }
                }
            }
        }
        action
    }

    /// Builds the tables for the accumulated grammar: augments it with a
    /// fresh start rule, computes the FIRST sets, builds the canonical
    /// collection of states, and derives the action and goto tables.
    /// Fails when no nonterminal start symbol was declared, or when some
    /// rule's right-hand side is empty.
    #[verifier::loop_isolation(false)]
    pub fn build(&mut self) -> (r: Result<crate::parser::Parser, BuildError>)
        requires
            old(self).spec_start_ok() && all_nonempty(rule_views(old(self).rules@))
                ==> crate::rule::rhs_defined_in(
                old(self).spec_aug(),
                crate::rule::lhs_set(old(self).spec_aug()),
            ),
        ensures
            !old(self).spec_start_ok() ==> r === Err(BuildError::NoStartSymbol) && *final(self)
                == *old(self),
            old(self).spec_start_ok() ==> rule_views(final(self).rules@) == old(self).spec_aug()
                && final(self).starting_symbol == old(self).starting_symbol,
            old(self).spec_start_ok() && !all_nonempty(rule_views(old(self).rules@)) ==> r
                === Err(BuildError::EmptyProduction),
            old(self).spec_start_ok() && all_nonempty(rule_views(old(self).rules@)) ==> r is Ok,
            r matches Ok(p) ==> ({
                &&& p.action.wf()
                &&& p.goto.wf()
                &&& rule_views(p.rules@) == old(self).spec_aug()
                &&& exists|states: Seq<Set<ItemView>>, go: Map<(int, SymbolView), int>|
                    #![trigger automaton_ok(old(self).spec_aug(), spec_first(old(self).spec_aug()), aug_rule_view(old(self).spec_start_name()), states, go)]
                    automaton_ok(
                        old(self).spec_aug(),
                        spec_first(old(self).spec_aug()),
                        aug_rule_view(old(self).spec_start_name()),
                        states,
                        go,
                    ) && action_ok(
                        old(self).spec_aug(),
                        aug_rule_view(old(self).spec_start_name()).left,
                        states,
                        go,
                        p.action@,
                    ) && goto_ok(go, p.goto@)
            }),
    {
        let ghost pre = *self;
        let name: String = match &self.starting_symbol {
            Some(Symbol::Nonterminal(n)) => n.clone(),
            _ => {
                return Err(BuildError::NoStartSymbol);
            },
        };
        proof {
            assert(pre.spec_start_ok());
            assert(name@ == pre.spec_start_name());
        }
        let aug_name = name.clone().concat("'");
        let mut aug_right: Vec<Symbol> = Vec::new();
        aug_right.push(Symbol::Nonterminal(name));
        let starting_rule = Rule { left: Symbol::Nonterminal(aug_name), right: aug_right };
        proof {
            assert(sym_views(starting_rule.right@) =~= seq![
                SymbolView::Nonterminal(pre.spec_start_name()),
            ]);
            assert(starting_rule@ =~= aug_rule_view(pre.spec_start_name()));
        }
        let start_copy = starting_rule.dup();
        self.rules.push(starting_rule);
        proof {
            assert(rule_views(self.rules@) =~= pre.spec_aug());
        }
        let ghost aug = pre.spec_aug();
        let mut k: usize = 0;
        while k < self.rules.len()
            invariant
                0 <= k <= self.rules@.len(),
                rule_views(self.rules@) == aug,
                forall|k2: int| 0 <= k2 < k ==> (#[trigger] aug[k2]).right.len() > 0,
            decreases self.rules@.len() - k,
        {
            if self.rules[k].right.len() == 0 {
                proof {
                    assert(aug[k as int].right.len() == 0);
                    assert(aug.last().right.len() == 1);
                    assert(k < aug.len() - 1);
                    assert(rule_views(pre.rules@)[k as int].right.len() == 0);
                    assert(!all_nonempty(rule_views(pre.rules@)));
                }
                return Err(BuildError::EmptyProduction);
            }
            k += 1;
        }
        proof {
            assert(all_nonempty(aug));
            assert(all_nonempty(rule_views(pre.rules@))) by {
                assert forall|k2: int|
                    0 <= k2 < rule_views(pre.rules@).len() implies (#[trigger] rule_views(
                    pre.rules@,
                )[k2]).right.len() > 0 by {
                    assert(aug[k2] == rule_views(pre.rules@)[k2]);
                }
            }
            assert(crate::rule::rhs_defined_in(aug, crate::rule::lhs_set(aug)));
        }
        let firsts = self.compute_first_sets();
        proof {
            assert(spec_first(aug).dom() =~= crate::rule::lhs_set(aug));
            assert forall|k2: int|
                0 <= k2 < self.rules@.len() implies rule_rhs_defined(
                #[trigger] rule_views(self.rules@)[k2],
                firsts@.dom(),
            ) by {}
            assert(rule_views(self.rules@)[aug.len() - 1] == start_copy@);
        }
        let (states, trans) = self.build_automaton(&firsts, &start_copy);
        let action = self.build_action_table(
            &states,
            &trans,
            &start_copy.left,
            Ghost(firsts@),
            Ghost(start_copy@),
        );
        let goto_tbl = build_goto_table(&trans);
        let rules_copy = crate::rule::dup_rules(&self.rules);
        proof {
            assert(start_copy.left@ == aug_rule_view(pre.spec_start_name()).left);
        }
        Ok(crate::parser::Parser { action, goto: goto_tbl, rules: rules_copy })
    }
}

/// Filters the transition map down to its nonterminal edges: the goto
/// table consulted after each reduction. One target per key is already
/// guaranteed by the transition map's well-formedness.
#[verifier::loop_isolation(false)]
fn build_goto_table(trans: &crate::tables::TransitionTable) -> (r: crate::tables::TransitionTable)
    requires
        trans.wf(),
    ensures
        r.wf(),
        goto_ok(trans@, r@),
{
    let mut gt = crate::tables::TransitionTable::new();
    let mut j: usize = 0;
    while j < trans.entries.len()
        invariant
            gt.wf(),
            0 <= j <= trans.entries@.len(),
            forall|kk: (int, SymbolView)| #[trigger]
                gt@.dom().contains(kk) ==> trans@.dom().contains(kk) && kk.1 is Nonterminal
                    && gt@[kk] == trans@[kk],
            forall|kk: (int, SymbolView)| #[trigger]
                gt@.dom().contains(kk) ==> exists|j2: int|
                    0 <= j2 < j && crate::tables::trans_key(#[trigger] trans.entries@[j2]) == kk,
            forall|j2: int|
                0 <= j2 < j && (#[trigger] trans.entries@[j2]).sym@ is Nonterminal
                    ==> gt@.dom().contains(crate::tables::trans_key(trans.entries@[j2])),
        decreases trans.entries@.len() - j,
    {
        let ent = &trans.entries[j];
        if ent.sym.is_nonterminal() {
            proof {
                crate::tables::lemma_trans_get(trans.entries@, j as int);
                assert(!gt@.dom().contains(crate::tables::trans_key(trans.entries@[j as int])))
                    by {
                    if gt@.dom().contains(crate::tables::trans_key(trans.entries@[j as int])) {
                        let j2 = choose|j2: int|
                            0 <= j2 < j && crate::tables::trans_key(#[trigger] trans.entries@[j2])
                                == crate::tables::trans_key(trans.entries@[j as int]);
                    }
                }
            }
            gt.insert_new(ent.from, ent.sym.dup(), ent.to);
            proof {
                assert(crate::tables::trans_key(trans.entries@[j as int]) == (
                    ent.from as int,
                    ent.sym@,
                ));
            }
        }
        j += 1;
    }
    proof {
        assert forall|kk: (int, SymbolView)|
            #[trigger] trans@.dom().contains(kk) && kk.1 is Nonterminal implies gt@.dom().contains(
            kk,
        ) by {
            crate::tables::lemma_trans_dom(trans.entries@, kk);
            let j2 = choose|j2: int|
                0 <= j2 < trans.entries@.len() && crate::tables::trans_key(
                    #[trigger] trans.entries@[j2],
                ) == kk;
            assert(trans.entries@[j2].sym@ is Nonterminal);
        }
    }
    gt
}

} // verus!
