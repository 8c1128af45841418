//! The automaton of a grammar: items, closures of item sets, and the states that are
//! reached from the first one.

use crate::grammar::{wf, wf_rule, Grammar, GrammarView, Rule};
use vstd::prelude::*;

verus! {

/// A rule with a mark in front of the symbol at `dot`, or behind the last symbol.
#[derive(Debug, Clone, Copy, PartialEq, Eq, Structural)]
pub struct LR0Item {
    pub rule: usize,
    pub dot: usize,
}

/// A set of items, listed in order without repetition.
#[derive(Debug)]
pub struct ItemSet {
    pub items: Vec<LR0Item>,
}

// ---------------------------------------------------------------------------
// The order of items
// ---------------------------------------------------------------------------

/// Whether the item `a` is listed ahead of the item `b`.
pub open spec fn ahead(a: LR0Item, b: LR0Item) -> bool {
    a.rule < b.rule || (a.rule == b.rule && a.dot < b.dot)
}

/// Whether the items are listed in order without repetition.
pub open spec fn in_order(s: Seq<LR0Item>) -> bool {
    forall|i: int, j: int| 0 <= i < j < s.len() ==> ahead(#[trigger] s[i], #[trigger] s[j])
}

/// The items of a set, listed in order.
pub open spec fn listed(s: Set<LR0Item>) -> Seq<LR0Item> {
    choose|q: Seq<LR0Item>| #[trigger] in_order(q) && q.to_set() == s
}

proof fn lemma_last_is_greatest(a: Seq<LR0Item>, x: LR0Item)
    requires
        in_order(a),
        a.len() > 0,
        a.to_set().contains(x),
    ensures
        x == a.last() || ahead(x, a.last()),
{
    let i = choose|i: int| 0 <= i < a.len() && a[i] == x;
    if i < a.len() - 1 {
        assert(ahead(a[i], a[a.len() - 1]));
    }
}

proof fn lemma_drop_last_set(a: Seq<LR0Item>)
    requires
        in_order(a),
        a.len() > 0,
    ensures
        in_order(a.drop_last()),
        a.drop_last().to_set() == a.to_set().remove(a.last()),
{
    let b = a.drop_last();
    assert forall|x: LR0Item| b.to_set().contains(x) <==> #[trigger] a.to_set().remove(
        a.last(),
    ).contains(x) by {
        if b.to_set().contains(x) {
            let i = choose|i: int| 0 <= i < b.len() && b[i] == x;
            assert(a[i] == x);
            assert(ahead(a[i], a[a.len() - 1]));
        }
        if a.to_set().remove(a.last()).contains(x) {
            let i = choose|i: int| 0 <= i < a.len() && a[i] == x;
            assert(b[i] == x);
        }
    }
    assert(b.to_set() =~= a.to_set().remove(a.last()));
}

/// One set of items is listed in order in one way only.
pub proof fn lemma_listed_once(a: Seq<LR0Item>, b: Seq<LR0Item>)
    requires
        in_order(a),
        in_order(b),
        a.to_set() == b.to_set(),
    ensures
        a == b,
    decreases a.len(),
{
    if a.len() == 0 {
        if b.len() > 0 {
            assert(b.to_set().contains(b[0]));
            assert(a.to_set().contains(b[0]));
        }
        assert(a =~= b);
    } else {
        assert(a.to_set().contains(a[a.len() - 1]));
        assert(b.to_set().contains(a.last()));
        let i = choose|i: int| 0 <= i < b.len() && b[i] == a.last();
        assert(b.to_set().contains(b[b.len() - 1]));
        lemma_last_is_greatest(a, b.last());
        lemma_last_is_greatest(b, a.last());
        assert(a.last() == b.last());
        lemma_drop_last_set(a);
        lemma_drop_last_set(b);
        lemma_listed_once(a.drop_last(), b.drop_last());
        assert(a =~= a.drop_last().push(a.last()));
        assert(b =~= b.drop_last().push(b.last()));
    }
}

/// Where items are in order, they are the list of their set.
pub proof fn lemma_listed(a: Seq<LR0Item>)
    requires
        in_order(a),
    ensures
        listed(a.to_set()) == a,
{
    let q = listed(a.to_set());
    assert(in_order(q) && q.to_set() == a.to_set());
    lemma_listed_once(a, q);
}

impl View for ItemSet {
    type V = Set<LR0Item>;

    open spec fn view(&self) -> Set<LR0Item> {
        self.items@.to_set()
    }
}

impl ItemSet {
    /// The invariant of an item set.
    pub open spec fn wf(&self) -> bool {
        in_order(self.items@)
    }

    /// The empty set.
    pub fn new() -> (s: ItemSet)
        ensures
            s.wf(),
            s@ == Set::<LR0Item>::empty(),
    {
        let s = ItemSet { items: Vec::new() };
        proof {
            assert(s@ =~= Set::<LR0Item>::empty());
        }
        s
    }

    /// Adds an item. The result says whether it was not there.
    pub fn insert(&mut self, item: LR0Item) -> (new: bool)
        requires
            old(self).wf(),
        ensures
            final(self).wf(),
            final(self)@ == old(self)@.insert(item),
            new == !old(self)@.contains(item),
    {
        let ghost before = self.items@;
        let mut i: usize = self.items.len();
        while i > 0 && (item.rule < self.items[i - 1].rule || (item.rule == self.items[i - 1].rule
            && item.dot < self.items[i - 1].dot))
            invariant
                i <= self.items@.len(),
                self.items@ == before,
                in_order(before),
                forall|j: int| i <= j < before.len() ==> ahead(item, #[trigger] before[j]),
            decreases i,
        {
            i -= 1;
        }
        if i > 0 && self.items[i - 1] == item {
            proof {
                assert(before[i - 1] == item);
                assert(self@ =~= self@.insert(item));
            }
            return false;
        }
        proof {
            if before.to_set().contains(item) {
                let k = choose|k: int| 0 <= k < before.len() && before[k] == item;
                assert(k < i);
                if k < i - 1 {
                    assert(ahead(before[k], before[i - 1]));
                }
                assert(false);
            }
            if i > 0 {
                assert(ahead(before[i - 1], item));
            }
        }
        self.items.insert(i, item);
        proof {
            let after = self.items@;
            assert(after == before.insert(i as int, item));
            assert forall|a: int, b: int| 0 <= a < b < after.len() implies ahead(
                #[trigger] after[a],
                #[trigger] after[b],
            ) by {
                if a < i && b == i {
                    if a < i - 1 {
                        assert(ahead(before[a], before[i - 1]));
                    }
                } else if a < i && b < i {
                    assert(ahead(before[a], before[b]));
                } else if a < i && b > i {
                    assert(ahead(before[a], before[b - 1]));
                } else if a == i {
                    assert(ahead(item, before[b - 1]));
                } else {
                    assert(ahead(before[a - 1], before[b - 1]));
                }
            }
            assert forall|x: LR0Item| after.to_set().contains(x) <==> #[trigger] before.to_set().insert(
                item,
            ).contains(x) by {
                if after.to_set().contains(x) {
                    let k = choose|k: int| 0 <= k < after.len() && after[k] == x;
                    if k < i {
                        assert(before[k] == x);
                    } else if k > i {
                        assert(before[k - 1] == x);
                    }
                }
                if before.to_set().contains(x) {
                    let k = choose|k: int| 0 <= k < before.len() && before[k] == x;
                    if k < i {
                        assert(after[k] == x);
                    } else {
                        assert(after[k + 1] == x);
                    }
                }
                assert(after[i as int] == item);
            }
            assert(self@ =~= before.to_set().insert(item));
        }
        true
    }

    /// A copy of the set.
    pub fn copy(&self) -> (s: ItemSet)
        ensures
            s.items@ == self.items@,
    {
        let mut items: Vec<LR0Item> = Vec::new();
        let mut i: usize = 0;
        while i < self.items.len()
            invariant
                i <= self.items@.len(),
                items@ == self.items@.take(i as int),
            decreases self.items@.len() - i,
        {
            items.push(self.items[i]);
            proof {
                assert(self.items@.take(i + 1) =~= self.items@.take(i as int).push(
                    self.items@[i as int],
                ));
            }
            i += 1;
        }
        proof {
            assert(self.items@.take(i as int) =~= self.items@);
        }
        ItemSet { items }
    }

    /// Whether the two sets hold the same items.
    pub fn same(&self, other: &ItemSet) -> (r: bool)
        requires
            self.wf(),
            other.wf(),
        ensures
            r == (self@ == other@),
    {
        if self.items.len() != other.items.len() {
            proof {
                if self@ == other@ {
                    lemma_listed_once(self.items@, other.items@);
                }
            }
            return false;
        }
        let mut i: usize = 0;
        while i < self.items.len()
            invariant
                i <= self.items@.len(),
                self.items@.len() == other.items@.len(),
                self.wf(),
                other.wf(),
                forall|j: int| 0 <= j < i ==> self.items@[j] == other.items@[j],
            decreases self.items@.len() - i,
        {
            if self.items[i] != other.items[i] {
                proof {
                    if self@ == other@ {
                        lemma_listed_once(self.items@, other.items@);
                    }
                }
                return false;
            }
            i += 1;
        }
        proof {
            assert(self.items@ =~= other.items@);
        }
        true
    }
}

// ---------------------------------------------------------------------------
// Closures
// ---------------------------------------------------------------------------

/// Whether the item is one of the grammar.
pub open spec fn is_item(g: GrammarView, it: LR0Item) -> bool {
    it.rule < g.rules.len() && it.dot <= g.rules[it.rule as int].rhs.len()
}

/// Whether all items of the set are items of the grammar.
pub open spec fn all_items(g: GrammarView, s: Set<LR0Item>) -> bool {
    forall|it: LR0Item| #[trigger] s.contains(it) ==> is_item(g, it)
}

/// Whether the mark of the item stands in front of the symbol `x`.
pub open spec fn awaits(g: GrammarView, it: LR0Item, x: usize) -> bool {
    it.dot < g.rules[it.rule as int].rhs.len() && g.rules[it.rule as int].rhs[it.dot as int] == x
}

/// The rule with the mark in front of its first symbol.
pub open spec fn fresh_item(r: int) -> LR0Item {
    LR0Item { rule: r as usize, dot: 0 }
}

/// Whether the set holds, with each item, the rules of the symbol behind its mark.
pub open spec fn closed(g: GrammarView, c: Set<LR0Item>) -> bool {
    forall|it: LR0Item, r: int|
        #[trigger] c.contains(it) && 0 <= r < g.rules.len() && awaits(
            g,
            it,
            (#[trigger] g.rules[r]).lhs,
        ) ==> c.contains(fresh_item(r))
}

/// The least closed set of items around `s`.
pub open spec fn closure(g: GrammarView, s: Set<LR0Item>) -> Set<LR0Item> {
    Set::new(
        |it: LR0Item|
            forall|c: Set<LR0Item>| s.subset_of(c) && #[trigger] closed(g, c) ==> c.contains(it),
    )
}

/// The items of `s` that await `x`, with the mark moved behind it.
pub open spec fn advanced(g: GrammarView, s: Set<LR0Item>, x: usize) -> Set<LR0Item> {
    Set::new(
        |it: LR0Item|
            {
                let from = LR0Item { rule: it.rule, dot: (it.dot - 1) as usize };
                it.dot > 0 && s.contains(from) && awaits(g, from, x)
            },
    )
}

/// The items after `x` has been read in the state `s`.
pub open spec fn goto(g: GrammarView, s: Set<LR0Item>, x: usize) -> Set<LR0Item> {
    closure(g, advanced(g, s, x))
}

/// Whether an item of the set awaits `x`.
pub open spec fn expects(g: GrammarView, s: Set<LR0Item>, x: usize) -> bool {
    exists|it: LR0Item| #[trigger] s.contains(it) && awaits(g, it, x)
}

/// A closure is closed, and holds the set around which it is built.
pub proof fn lemma_closure_closed(g: GrammarView, s: Set<LR0Item>)
    ensures
        closed(g, closure(g, s)),
        s.subset_of(closure(g, s)),
{
    let cc = closure(g, s);
    assert forall|it: LR0Item, r: int|
        #[trigger] cc.contains(it) && 0 <= r < g.rules.len() && awaits(
            g,
            it,
            (#[trigger] g.rules[r]).lhs,
        ) implies cc.contains(fresh_item(r)) by {
        assert forall|c: Set<LR0Item>| s.subset_of(c) && #[trigger] closed(
            g,
            c,
        ) implies c.contains(fresh_item(r)) by {
            assert(c.contains(it));
        }
    }
}

/// A closure is in each closed set that holds the set around which it is built.
pub proof fn lemma_closure_least(g: GrammarView, s: Set<LR0Item>, c: Set<LR0Item>)
    requires
        s.subset_of(c),
        closed(g, c),
    ensures
        closure(g, s).subset_of(c),
{
}

/// A closure of items of the grammar holds items of the grammar.
pub proof fn lemma_closure_items(g: GrammarView, s: Set<LR0Item>)
    requires
        g.rules.len() <= usize::MAX,
        all_items(g, s),
    ensures
        all_items(g, closure(g, s)),
{
    let c = Set::new(|it: LR0Item| is_item(g, it));
    assert(closed(g, c));
    lemma_closure_least(g, s, c);
    assert forall|it: LR0Item| #[trigger] closure(g, s).contains(it) implies is_item(g, it) by {
        assert(c.contains(it));
    }
}

proof fn lemma_advanced_items(g: GrammarView, s: Set<LR0Item>, x: usize)
    requires
        all_items(g, s),
    ensures
        all_items(g, advanced(g, s, x)),
{
    assert forall|it: LR0Item| #[trigger] advanced(g, s, x).contains(it) implies is_item(g, it) by {
        let from = LR0Item { rule: it.rule, dot: (it.dot - 1) as usize };
        assert(s.contains(from));
    }
}

/// What is reached from items of the grammar holds items of the grammar.
pub proof fn lemma_goto_items(g: GrammarView, s: Set<LR0Item>, x: usize)
    requires
        g.rules.len() <= usize::MAX,
        all_items(g, s),
    ensures
        all_items(g, goto(g, s, x)),
{
    lemma_advanced_items(g, s, x);
    lemma_closure_items(g, advanced(g, s, x));
}

/// Adds the rules of `sym` to the set and, where they are new, to the list.
fn add_rules_of(
    g: &Grammar,
    sym: usize,
    result: &mut ItemSet,
    list: &mut Vec<LR0Item>,
    Ghost(cc): Ghost<Set<LR0Item>>,
)
    requires
        wf(g@),
        old(result).wf(),
        old(list)@.to_set() == old(result)@,
        old(result)@.subset_of(cc),
        forall|r: int|
            0 <= r < g@.rules.len() && (#[trigger] g@.rules[r]).lhs == sym ==> cc.contains(
                fresh_item(r),
            ),
    ensures
        final(result).wf(),
        final(list)@.to_set() == final(result)@,
        final(result)@.subset_of(cc),
        old(result)@.subset_of(final(result)@),
        old(list)@.is_prefix_of(final(list)@),
        forall|r: int|
            0 <= r < g@.rules.len() && (#[trigger] g@.rules[r]).lhs == sym
                ==> final(result)@.contains(fresh_item(r)),
{
    let ghost first = list@;
    let ghost before = result@;
    let mut i: usize = 0;
    while i < g.rules.len()
        invariant
            i <= g.rules@.len(),
            g@.rules.len() == g.rules@.len(),
            result.wf(),
            list@.to_set() == result@,
            result@.subset_of(cc),
            before.subset_of(result@),
            first.is_prefix_of(list@),
            forall|r: int|
                0 <= r < g@.rules.len() && (#[trigger] g@.rules[r]).lhs == sym ==> cc.contains(
                    fresh_item(r),
                ),
            forall|r: int|
                0 <= r < i && (#[trigger] g@.rules[r]).lhs == sym ==> result@.contains(
                    fresh_item(r),
                ),
        decreases g.rules@.len() - i,
    {
        proof {
            assert(g@.rules[i as int] == g.rules@[i as int]@);
        }
        if g.rules[i].lhs == sym {
            let item = LR0Item { rule: i, dot: 0 };
            let ghost listed_before = list@;
            let ghost set_before = result@;
            proof {
                assert(item == fresh_item(i as int));
            }
            if result.insert(item) {
                list.push(item);
                proof {
                    assert forall|x: LR0Item| list@.to_set().contains(x) <==> #[trigger] result@.contains(
                        x,
                    ) by {
                        if list@.to_set().contains(x) {
                            let k = choose|k: int| 0 <= k < list@.len() && list@[k] == x;
                            if k < listed_before.len() {
                                assert(listed_before[k] == x);
                                assert(listed_before.to_set().contains(x));
                            }
                        }
                        if result@.contains(x) {
                            if x == item {
                                assert(list@[listed_before.len() as int] == x);
                            } else {
                                assert(set_before.contains(x));
                                assert(listed_before.to_set().contains(x));
                                let k = choose|k: int|
                                    0 <= k < listed_before.len() && listed_before[k] == x;
                                assert(list@[k] == x);
                            }
                        }
                    }
                    assert(list@.to_set() =~= result@);
                }
            } else {
                proof {
                    assert(result@ =~= set_before);
                }
            }
        }
        i += 1;
    }
}

/// The closure of a set of items.
pub fn closure_of(g: &Grammar, items: &ItemSet) -> (result: ItemSet)
    requires
        wf(g@),
        items.wf(),
        all_items(g@, items@),
    ensures
        result.wf(),
        result@ == closure(g@, items@),
        all_items(g@, result@),
{
    let ghost cc = closure(g@, items@);
    proof {
        lemma_closure_closed(g@, items@);
        lemma_closure_items(g@, items@);
    }
    let mut result: ItemSet = items.copy();
    let mut list: Vec<LR0Item> = items.copy().items;
    proof {
        assert(list@.len() == list.len());
    }
    let mut i: usize = 0;
    while i < list.len()
        invariant
            wf(g@),
            cc == closure(g@, items@),
            closed(g@, cc),
            all_items(g@, cc),
            i <= list@.len(),
            list@.len() <= usize::MAX,
            result.wf(),
            list@.to_set() == result@,
            items@.subset_of(result@),
            result@.subset_of(cc),
            forall|k: int, r: int|
                0 <= k < i && 0 <= r < g@.rules.len() && awaits(
                    g@,
                    #[trigger] list@[k],
                    (#[trigger] g@.rules[r]).lhs,
                ) ==> result@.contains(fresh_item(r)),
        decreases usize::MAX - list@.len(), list@.len() - i,
    {
        let item: LR0Item = list[i];
        let ghost listed_before = list@;
        proof {
            assert(list@.to_set().contains(list@[i as int]));
            assert(cc.contains(item));
            assert(is_item(g@, item));
            assert(g@.rules[item.rule as int] == g.rules@[item.rule as int]@);
            assert(wf_rule(g@, g@.rules[item.rule as int]));
        }
        let rule: &Rule = &g.rules[item.rule];
        if item.dot < rule.rhs.len() {
            let next: usize = rule.rhs[item.dot];
            if g.is_nonterminal(next) {
                proof {
                    assert forall|r: int|
                        0 <= r < g@.rules.len() && (#[trigger] g@.rules[r]).lhs
                            == next implies cc.contains(fresh_item(r)) by {
                        assert(awaits(g@, item, g@.rules[r].lhs));
                    }
                }
                add_rules_of(g, next, &mut result, &mut list, Ghost(cc));
                proof {
                    assert(list@.len() == list.len());
                }
            } else {
                proof {
                    assert forall|r: int| 0 <= r < g@.rules.len() implies (
                    #[trigger] g@.rules[r]).lhs != next by {
                        assert(wf_rule(g@, g@.rules[r]));
                    }
                }
            }
        }
        i += 1;
        proof {
            assert forall|k: int, r: int|
                0 <= k < i && 0 <= r < g@.rules.len() && awaits(
                    g@,
                    #[trigger] list@[k],
                    (#[trigger] g@.rules[r]).lhs,
                ) implies result@.contains(fresh_item(r)) by {
                assert(list@[k] == listed_before[k]);
            }
        }
    }
    proof {
        assert(closed(g@, result@)) by {
            assert forall|it: LR0Item, r: int|
                #[trigger] result@.contains(it) && 0 <= r < g@.rules.len() && awaits(
                    g@,
                    it,
                    (#[trigger] g@.rules[r]).lhs,
                ) implies result@.contains(fresh_item(r)) by {
                assert(list@.to_set().contains(it));
                let k = choose|k: int| 0 <= k < list@.len() && list@[k] == it;
                assert(awaits(g@, list@[k], g@.rules[r].lhs));
            }
        }
        lemma_closure_least(g@, items@, result@);
        assert(result@ =~= cc);
    }
    result
}

/// The items after `symbol` has been read in the state with the given items.
pub fn goto_of(g: &Grammar, items: &ItemSet, symbol: usize) -> (result: ItemSet)
    requires
        wf(g@),
        items.wf(),
        all_items(g@, items@),
    ensures
        result.wf(),
        result@ == goto(g@, items@, symbol),
        all_items(g@, result@),
{
    let mut moved: ItemSet = ItemSet::new();
    let ghost want = advanced(g@, items@, symbol);
    let mut i: usize = 0;
    while i < items.items.len()
        invariant
            wf(g@),
            i <= items.items@.len(),
            all_items(g@, items@),
            moved.wf(),
            want == advanced(g@, items@, symbol),
            moved@.subset_of(want),
            forall|k: int|
                0 <= k < i && awaits(g@, #[trigger] items.items@[k], symbol) ==> moved@.contains(
                    LR0Item {
                        rule: items.items@[k].rule,
                        dot: (items.items@[k].dot + 1) as usize,
                    },
                ),
        decreases items.items@.len() - i,
    {
        let item: LR0Item = items.items[i];
        proof {
            assert(items@.contains(items.items@[i as int]));
            assert(is_item(g@, item));
            assert(g@.rules[item.rule as int] == g.rules@[item.rule as int]@);
        }
        let rule: &Rule = &g.rules[item.rule];
        if item.dot < rule.rhs.len() && rule.rhs[item.dot] == symbol {
            let next = LR0Item { rule: item.rule, dot: item.dot + 1 };
            proof {
                let from = LR0Item { rule: next.rule, dot: (next.dot - 1) as usize };
                assert(from == item);
                assert(want.contains(next));
            }
            moved.insert(next);
        }
        i += 1;
    }
    proof {
        assert forall|it: LR0Item| #[trigger] want.contains(it) implies moved@.contains(it) by {
            let from = LR0Item { rule: it.rule, dot: (it.dot - 1) as usize };
            assert(items@.contains(from));
            let k = choose|k: int| 0 <= k < items.items@.len() && items.items@[k] == from;
            assert(awaits(g@, items.items@[k], symbol));
        }
        assert(moved@ =~= want);
        lemma_advanced_items(g@, items@, symbol);
    }
    closure_of(g, &moved)
}

// ---------------------------------------------------------------------------
// States
// ---------------------------------------------------------------------------

/// The state in which nothing has been read: the closure of rule number zero with the mark
/// in front.
pub open spec fn start_state(g: GrammarView) -> Set<LR0Item> {
    closure(g, set![fresh_item(0)])
}

/// The states, with those behind them that are reached from `from` by a symbol below `x`
/// and are not there yet, in the order of the symbols.
pub open spec fn with_gotos(
    g: GrammarView,
    from: Set<LR0Item>,
    states: Seq<Set<LR0Item>>,
    x: int,
) -> Seq<Set<LR0Item>>
    decreases x,
{
    if x <= 0 {
        states
    } else {
        let s = with_gotos(g, from, states, x - 1);
        let next = goto(g, from, (x - 1) as usize);
        if expects(g, from, (x - 1) as usize) && !s.contains(next) {
            s.push(next)
        } else {
            s
        }
    }
}

/// The states that are found when all states with a number below `k` have been visited,
/// in the order of their numbers.
pub open spec fn visited(g: GrammarView, k: int) -> Seq<Set<LR0Item>>
    decreases k,
{
    if k <= 0 {
        seq![start_state(g)]
    } else {
        let s = visited(g, k - 1);
        if k - 1 < s.len() {
            with_gotos(g, s[k - 1], s, g.symbols.len() as int)
        } else {
            s
        }
    }
}

/// Whether there is no state left when all with a number below `k` have been visited.
pub open spec fn all_visited(g: GrammarView, k: int) -> bool {
    0 <= k && visited(g, k).len() <= k
}

/// The states of the grammar's automaton, in the order in which they are found.
pub open spec fn states_of(g: GrammarView) -> Seq<Set<LR0Item>> {
    visited(g, choose|k: int| all_visited(g, k))
}

proof fn lemma_with_gotos(
    g: GrammarView,
    from: Set<LR0Item>,
    states: Seq<Set<LR0Item>>,
    x: int,
)
    requires
        g.rules.len() <= usize::MAX,
        states.no_duplicates(),
        all_items(g, from),
        forall|i: int| 0 <= i < states.len() ==> all_items(g, #[trigger] states[i]),
    ensures
        states.is_prefix_of(with_gotos(g, from, states, x)),
        with_gotos(g, from, states, x).no_duplicates(),
        forall|i: int|
            0 <= i < with_gotos(g, from, states, x).len() ==> all_items(
                g,
                #[trigger] with_gotos(g, from, states, x)[i],
            ),
    decreases x,
{
    if x > 0 {
        lemma_with_gotos(g, from, states, x - 1);
        lemma_goto_items(g, from, (x - 1) as usize);
    }
}

/// The states that are found are distinct, hold items of the grammar, and stay where they
/// are when more states are visited.
pub proof fn lemma_visited(g: GrammarView, k: int)
    requires
        1 <= g.rules.len() <= usize::MAX,
    ensures
        visited(g, k).no_duplicates(),
        visited(g, k).len() >= 1,
        visited(g, k)[0] == start_state(g),
        k > 0 ==> visited(g, k - 1).is_prefix_of(visited(g, k)),
        forall|i: int|
            0 <= i < visited(g, k).len() ==> all_items(g, #[trigger] visited(g, k)[i]),
    decreases k,
{
    if k <= 0 {
        lemma_closure_items(g, set![fresh_item(0)]);
    } else {
        lemma_visited(g, k - 1);
        let s = visited(g, k - 1);
        if k - 1 < s.len() {
            lemma_with_gotos(g, s[k - 1], s, g.symbols.len() as int);
        }
    }
}

proof fn lemma_visited_stays(g: GrammarView, k: int, j: int)
    requires
        all_visited(g, k),
        k <= j,
    ensures
        visited(g, j) == visited(g, k),
    decreases j,
{
    if k < j {
        lemma_visited_stays(g, k, j - 1);
    }
}

/// Where there is no state left, the states found are those of the automaton.
pub proof fn lemma_states_of(g: GrammarView, k: int)
    requires
        all_visited(g, k),
    ensures
        states_of(g) == visited(g, k),
{
    let c = choose|k: int| all_visited(g, k);
    if c <= k {
        lemma_visited_stays(g, c, k);
    } else {
        lemma_visited_stays(g, k, c);
    }
}

// ---------------------------------------------------------------------------
// The states are finite in number
// ---------------------------------------------------------------------------

/// The items of rule number `r` with the mark ahead of place `d`.
spec fn rule_items(r: int, d: int) -> Set<LR0Item>
    decreases d,
{
    if d <= 0 {
        Set::empty()
    } else {
        rule_items(r, d - 1).insert(LR0Item { rule: r as usize, dot: (d - 1) as usize })
    }
}

/// The items of the rules with a number below `n`.
spec fn items_below(g: GrammarView, n: int) -> Set<LR0Item>
    decreases n,
{
    if n <= 0 {
        Set::empty()
    } else {
        items_below(g, n - 1).union(rule_items(n - 1, g.rules[n - 1].rhs.len() as int + 1))
    }
}

/// The subsets of a set.
spec fn subsets(s: Set<LR0Item>) -> Set<Set<LR0Item>> {
    Set::new(|t: Set<LR0Item>| t.subset_of(s))
}

proof fn lemma_rule_items(r: int, d: int)
    ensures
        rule_items(r, d).finite(),
        forall|it: LR0Item|
            it.rule == r as usize && it.dot < d ==> #[trigger] rule_items(r, d).contains(it),
    decreases d,
{
    if d > 0 {
        lemma_rule_items(r, d - 1);
    }
}

proof fn lemma_items_below(g: GrammarView, n: int)
    requires
        n <= g.rules.len() <= usize::MAX,
    ensures
        items_below(g, n).finite(),
        forall|it: LR0Item| is_item(g, it) && it.rule < n ==> items_below(g, n).contains(it),
    decreases n,
{
    if n > 0 {
        lemma_items_below(g, n - 1);
        lemma_rule_items(n - 1, g.rules[n - 1].rhs.len() as int + 1);
        assert forall|it: LR0Item| is_item(g, it) && it.rule < n implies items_below(
            g,
            n,
        ).contains(it) by {
            if it.rule == n - 1 {
                assert(rule_items(n - 1, g.rules[n - 1].rhs.len() as int + 1).contains(it));
            }
        }
    }
}

proof fn lemma_subsets_finite(s: Set<LR0Item>)
    requires
        s.finite(),
    ensures
        subsets(s).finite(),
    decreases s.len(),
{
    if s.len() == 0 {
        assert(subsets(s) =~= set![Set::<LR0Item>::empty()]) by {
            assert forall|t: Set<LR0Item>| subsets(s).contains(t) <==> #[trigger] set![
                Set::<LR0Item>::empty(),
            ].contains(t) by {
                if subsets(s).contains(t) {
                    assert(t =~= Set::empty());
                }
            }
        }
    } else {
        let a = s.choose();
        let r = s.remove(a);
        lemma_subsets_finite(r);
        let f = |t: Set<LR0Item>| t.insert(a);
        subsets(r).lemma_map_finite(f);
        let both = subsets(r).union(subsets(r).map(f));
        assert forall|t: Set<LR0Item>| #[trigger] subsets(s).contains(t) implies both.contains(
            t,
        ) by {
            if t.contains(a) {
                let u = t.remove(a);
                assert(subsets(r).contains(u));
                assert(t =~= f(u));
            } else {
                assert(t.subset_of(r));
            }
        }
        vstd::set_lib::lemma_set_subset_finite(both, subsets(s));
    }
}

/// The states of the automaton are finite in number: there is a point at which all have
/// been visited.
pub proof fn lemma_all_visited(g: GrammarView)
    requires
        1 <= g.rules.len() <= usize::MAX,
    ensures
        exists|k: int| all_visited(g, k),
{
    let u = items_below(g, g.rules.len() as int);
    lemma_items_below(g, g.rules.len() as int);
    lemma_subsets_finite(u);
    let n = subsets(u).len() as int;
    let s = visited(g, n);
    lemma_visited(g, n);
    assert(s.to_set().subset_of(subsets(u))) by {
        assert forall|t: Set<LR0Item>| s.to_set().contains(t) implies #[trigger] subsets(
            u,
        ).contains(t) by {
            let i = choose|i: int| 0 <= i < s.len() && s[i] == t;
            assert(all_items(g, s[i]));
            assert forall|it: LR0Item| #[trigger] t.contains(it) implies u.contains(it) by {
                assert(is_item(g, it));
            }
        }
    }
    s.unique_seq_to_set();
    vstd::set_lib::lemma_set_subset_finite(subsets(u), s.to_set());
    vstd::set_lib::lemma_len_subset(s.to_set(), subsets(u));
    assert(all_visited(g, n));
}

proof fn lemma_visited_prefix(g: GrammarView, i: int, j: int)
    requires
        1 <= g.rules.len() <= usize::MAX,
        i <= j,
    ensures
        visited(g, i).is_prefix_of(visited(g, j)),
    decreases j - i,
{
    if i < j {
        lemma_visited_prefix(g, i, j - 1);
        lemma_visited(g, j);
    }
}

proof fn lemma_with_gotos_holds(
    g: GrammarView,
    from: Set<LR0Item>,
    states: Seq<Set<LR0Item>>,
    n: int,
    x: usize,
)
    requires
        x < n,
        expects(g, from, x),
    ensures
        with_gotos(g, from, states, n).contains(goto(g, from, x)),
    decreases n,
{
    let before = with_gotos(g, from, states, n - 1);
    let after = with_gotos(g, from, states, n);
    let next = goto(g, from, x);
    if x == n - 1 {
        if !before.contains(next) {
            assert(after[before.len() as int] == next);
        }
    } else {
        lemma_with_gotos_holds(g, from, states, n - 1, x);
        let i = choose|i: int| 0 <= i < before.len() && before[i] == next;
        assert(after[i] == next);
    }
}

/// The states of the automaton are distinct and hold items of the grammar, the first is
/// the one in which nothing has been read, and what is reached from a state is a state.
pub proof fn lemma_states(g: GrammarView)
    requires
        wf(g),
        g.rules.len() >= 1,
    ensures
        states_of(g).no_duplicates(),
        states_of(g).len() >= 1,
        states_of(g)[0] == start_state(g),
        forall|k: int| 0 <= k < states_of(g).len() ==> all_items(g, #[trigger] states_of(g)[k]),
        forall|k: int, x: usize|
            0 <= k < states_of(g).len() && #[trigger] expects(g, states_of(g)[k], x)
                ==> states_of(g).contains(goto(g, states_of(g)[k], x)),
{
    lemma_all_visited(g);
    let c = choose|k: int| all_visited(g, k);
    let s = states_of(g);
    lemma_visited(g, c);
    assert forall|k: int, x: usize|
        0 <= k < s.len() && #[trigger] expects(g, s[k], x) implies s.contains(
        goto(g, s[k], x),
    ) by {
        let it = choose|it: LR0Item| #[trigger] s[k].contains(it) && awaits(g, it, x);
        assert(is_item(g, it));
        assert(wf_rule(g, g.rules[it.rule as int]));
        let v = visited(g, k);
        if v.len() <= k {
            lemma_visited_stays(g, k, c);
        }
        lemma_visited_prefix(g, k, c);
        assert(v[k] == s[k]);
        let w = visited(g, k + 1);
        lemma_with_gotos_holds(g, v[k], v, g.symbols.len() as int, x);
        lemma_visited_prefix(g, k + 1, c);
        let next = goto(g, s[k], x);
        let i = choose|i: int| 0 <= i < w.len() && w[i] == next;
        assert(s[i] == next);
    }
}

/// Whether state `s[i]` is reached from `s[j]` by the symbol `x`.
pub open spec fn is_reached(g: GrammarView, s: Seq<Set<LR0Item>>, j: int, x: usize, i: int) -> bool {
    expects(g, s[j], x) && s[i] == goto(g, s[j], x)
}

proof fn lemma_with_gotos_reached(
    g: GrammarView,
    from: Set<LR0Item>,
    states: Seq<Set<LR0Item>>,
    n: int,
    i: int,
)
    requires
        states.len() <= i < with_gotos(g, from, states, n).len(),
        n <= usize::MAX,
    ensures
        exists|x: usize| #[trigger]
            expects(g, from, x) && with_gotos(g, from, states, n)[i] == goto(g, from, x),
    decreases n,
{
    if n > 0 {
        let before = with_gotos(g, from, states, n - 1);
        if i < before.len() {
            lemma_with_gotos_reached(g, from, states, n - 1, i);
        } else {
            assert(expects(g, from, (n - 1) as usize));
        }
    }
}

proof fn lemma_visited_reached(g: GrammarView, k: int, i: int)
    requires
        wf(g),
        g.rules.len() >= 1,
        1 <= i < visited(g, k).len(),
    ensures
        exists|j: int, x: usize| 0 <= j < i && #[trigger] is_reached(g, visited(g, k), j, x, i),
    decreases k,
{
    if k > 0 {
        let before = visited(g, k - 1);
        let after = visited(g, k);
        lemma_visited(g, k - 1);
        lemma_visited(g, k);
        if i < before.len() {
            lemma_visited_reached(g, k - 1, i);
            let (j, x) = choose|j: int, x: usize|
                0 <= j < i && #[trigger] is_reached(g, before, j, x, i);
            assert(after[j] == before[j] && after[i] == before[i]);
            assert(is_reached(g, after, j, x, i));
        } else {
            lemma_with_gotos_reached(g, before[k - 1], before, g.symbols.len() as int, i);
            let x = choose|x: usize| #[trigger]
                expects(g, before[k - 1], x) && after[i] == goto(g, before[k - 1], x);
            assert(after[k - 1] == before[k - 1]);
            assert(is_reached(g, after, k - 1, x, i));
        }
    }
}

/// Each state but the first is reached from one with a lower number.
pub proof fn lemma_state_reached(g: GrammarView, i: int)
    requires
        wf(g),
        g.rules.len() >= 1,
        1 <= i < states_of(g).len(),
    ensures
        exists|j: int, x: usize| 0 <= j < i && #[trigger] is_reached(g, states_of(g), j, x, i),
{
    let c = choose|k: int| all_visited(g, k);
    lemma_visited_reached(g, c, i);
}

/// A closure adds only rules with the mark in front.
pub proof fn lemma_closure_adds(g: GrammarView, s: Set<LR0Item>, it: LR0Item)
    requires
        closure(g, s).contains(it),
        it.dot > 0,
    ensures
        s.contains(it),
{
    let c = Set::new(|x: LR0Item| s.contains(x) || x.dot == 0);
    assert(closed(g, c));
    assert(s.subset_of(c));
    lemma_closure_least(g, s, c);
    assert(c.contains(it));
}

/// Where an item of a state has its mark behind a symbol, the state is reached by that
/// symbol from one in which the mark stands ahead of it.
pub proof fn lemma_goto_origin(g: GrammarView, s: Set<LR0Item>, x: usize, it: LR0Item)
    requires
        goto(g, s, x).contains(it),
        it.dot > 0,
    ensures
        s.contains(LR0Item { rule: it.rule, dot: (it.dot - 1) as usize }),
        awaits(g, LR0Item { rule: it.rule, dot: (it.dot - 1) as usize }, x),
{
    lemma_closure_adds(g, advanced(g, s, x), it);
}

/// An item whose mark is moved is in the state that is reached.
pub proof fn lemma_goto_advances(g: GrammarView, s: Set<LR0Item>, x: usize, it: LR0Item)
    requires
        s.contains(it),
        awaits(g, it, x),
        it.dot < usize::MAX,
    ensures
        goto(g, s, x).contains(LR0Item { rule: it.rule, dot: (it.dot + 1) as usize }),
{
    let next = LR0Item { rule: it.rule, dot: (it.dot + 1) as usize };
    let from = LR0Item { rule: next.rule, dot: (next.dot - 1) as usize };
    assert(from == it);
    assert(advanced(g, s, x).contains(next));
    lemma_closure_closed(g, advanced(g, s, x));
}

/// All states are closed.
pub proof fn lemma_state_closed(g: GrammarView, i: int)
    requires
        wf(g),
        g.rules.len() >= 1,
        0 <= i < states_of(g).len(),
    ensures
        closed(g, states_of(g)[i]),
{
    let s = states_of(g);
    if i == 0 {
        lemma_states(g);
        lemma_closure_closed(g, set![fresh_item(0)]);
    } else {
        lemma_state_reached(g, i);
        let (j, x) = choose|j: int, x: usize| 0 <= j < i && #[trigger] is_reached(g, s, j, x, i);
        lemma_closure_closed(g, advanced(g, s[j], x));
    }
}

/// The list with one more item, in its place.
spec fn with_item_in_order(q: Seq<LR0Item>, a: LR0Item) -> Seq<LR0Item>
    decreases q.len(),
{
    if q.len() == 0 || ahead(q.last(), a) {
        q.push(a)
    } else {
        with_item_in_order(q.drop_last(), a).push(q.last())
    }
}

proof fn lemma_with_item_in_order(q: Seq<LR0Item>, a: LR0Item)
    requires
        in_order(q),
        !q.to_set().contains(a),
    ensures
        in_order(with_item_in_order(q, a)),
        with_item_in_order(q, a).to_set() == q.to_set().insert(a),
    decreases q.len(),
{
    let r = with_item_in_order(q, a);
    if q.len() == 0 || ahead(q.last(), a) {
        assert forall|i: int, j: int| 0 <= i < j < r.len() implies ahead(
            #[trigger] r[i],
            #[trigger] r[j],
        ) by {
            if j == q.len() && i < q.len() - 1 {
                assert(ahead(q[i], q[q.len() - 1]));
            }
        }
        assert forall|x: LR0Item| r.to_set().contains(x) <==> #[trigger] q.to_set().insert(
            a,
        ).contains(x) by {
            if q.to_set().contains(x) {
                let i = choose|i: int| 0 <= i < q.len() && q[i] == x;
                assert(r[i] == x);
            }
            assert(r[q.len() as int] == a);
        }
        assert(r.to_set() =~= q.to_set().insert(a));
    } else {
        let b = q.drop_last();
        let m = with_item_in_order(b, a);
        lemma_drop_last_set(q);
        assert(q.to_set().contains(q[q.len() - 1]));
        lemma_with_item_in_order(b, a);
        assert(ahead(a, q.last()));
        assert forall|i: int, j: int| 0 <= i < j < r.len() implies ahead(
            #[trigger] r[i],
            #[trigger] r[j],
        ) by {
            if j == m.len() {
                assert(m.to_set().contains(m[i]));
                if m[i] != a {
                    assert(b.to_set().contains(m[i]));
                    lemma_last_is_greatest(q, m[i]);
                }
            } else {
                assert(ahead(m[i], m[j]));
            }
        }
        assert forall|x: LR0Item| r.to_set().contains(x) <==> #[trigger] q.to_set().insert(
            a,
        ).contains(x) by {
            if r.to_set().contains(x) {
                let i = choose|i: int| 0 <= i < r.len() && r[i] == x;
                if i < m.len() {
                    assert(m[i] == x);
                    assert(m.to_set().contains(x));
                }
            }
            if q.to_set().insert(a).contains(x) {
                if x == q.last() {
                    assert(r[m.len() as int] == x);
                } else {
                    assert(m.to_set().contains(x));
                    let i = choose|i: int| 0 <= i < m.len() && m[i] == x;
                    assert(r[i] == x);
                }
            }
        }
        assert(r.to_set() =~= q.to_set().insert(a));
    }
}

proof fn lemma_finite_listed(s: Set<LR0Item>)
    requires
        s.finite(),
    ensures
        exists|q: Seq<LR0Item>| #[trigger] in_order(q) && q.to_set() == s,
    decreases s.len(),
{
    if s.len() == 0 {
        let q = Seq::<LR0Item>::empty();
        assert(in_order(q));
        assert(q.to_set() =~= s);
    } else {
        let a = s.choose();
        lemma_finite_listed(s.remove(a));
        let q = choose|q: Seq<LR0Item>| #[trigger] in_order(q) && q.to_set() == s.remove(a);
        lemma_with_item_in_order(q, a);
        assert(in_order(with_item_in_order(q, a)));
        assert(with_item_in_order(q, a).to_set() =~= s);
    }
}

/// The items of a state can be listed in order, and its list holds just them.
pub proof fn lemma_state_listed(g: GrammarView, k: int)
    requires
        wf(g),
        g.rules.len() >= 1,
        0 <= k < states_of(g).len(),
    ensures
        in_order(listed(states_of(g)[k])),
        listed(states_of(g)[k]).to_set() == states_of(g)[k],
{
    lemma_states(g);
    let s = states_of(g)[k];
    let u = items_below(g, g.rules.len() as int);
    lemma_items_below(g, g.rules.len() as int);
    assert(all_items(g, s));
    assert forall|it: LR0Item| #[trigger] s.contains(it) implies u.contains(it) by {
        assert(is_item(g, it));
    }
    vstd::set_lib::lemma_set_subset_finite(u, s);
    lemma_finite_listed(s);
}

/// The models of a list of item sets.
pub open spec fn item_sets(s: Seq<ItemSet>) -> Seq<Set<LR0Item>> {
    s.map_values(|t: ItemSet| t@)
}

/// Whether each item set of the list is well-formed and holds items of the grammar.
pub open spec fn wf_states(g: GrammarView, s: Seq<ItemSet>) -> bool {
    forall|i: int| 0 <= i < s.len() ==> (#[trigger] s[i]).wf() && all_items(g, s[i]@)
}

/// The number of the state with the given items; the number of states where there is
/// none.
pub fn position(states: &Vec<ItemSet>, s: &ItemSet) -> (r: usize)
    requires
        s.wf(),
        forall|i: int| 0 <= i < states@.len() ==> (#[trigger] states@[i]).wf(),
    ensures
        r <= states@.len(),
        r < states@.len() ==> item_sets(states@)[r as int] == s@,
        (r == states@.len()) == !item_sets(states@).contains(s@),
{
    let mut i: usize = 0;
    while i < states.len()
        invariant
            i <= states@.len(),
            s.wf(),
            forall|i: int| 0 <= i < states@.len() ==> (#[trigger] states@[i]).wf(),
            forall|j: int| 0 <= j < i ==> (#[trigger] states@[j])@ != s@,
        decreases states@.len() - i,
    {
        if states[i].same(s) {
            proof {
                assert(item_sets(states@)[i as int] == s@);
            }
            return i;
        }
        i += 1;
    }
    proof {
        if item_sets(states@).contains(s@) {
            let j = choose|j: int|
                0 <= j < item_sets(states@).len() && item_sets(states@)[j] == s@;
            assert(states@[j]@ == s@);
        }
    }
    i
}

/// Whether an item of the set awaits `symbol`.
pub fn expects_symbol(g: &Grammar, items: &ItemSet, symbol: usize) -> (r: bool)
    requires
        all_items(g@, items@),
    ensures
        r == expects(g@, items@, symbol),
{
    let mut i: usize = 0;
    while i < items.items.len()
        invariant
            i <= items.items@.len(),
            all_items(g@, items@),
            forall|k: int| 0 <= k < i ==> !awaits(g@, #[trigger] items.items@[k], symbol),
        decreases items.items@.len() - i,
    {
        let item: LR0Item = items.items[i];
        proof {
            assert(items@.contains(items.items@[i as int]));
            assert(is_item(g@, item));
            assert(g@.rules[item.rule as int] == g.rules@[item.rule as int]@);
        }
        let rule: &Rule = &g.rules[item.rule];
        if item.dot < rule.rhs.len() && rule.rhs[item.dot] == symbol {
            proof {
                assert(items@.contains(item) && awaits(g@, item, symbol));
            }
            return true;
        }
        i += 1;
    }
    proof {
        if expects(g@, items@, symbol) {
            let it = choose|it: LR0Item| #[trigger] items@.contains(it) && awaits(g@, it, symbol);
            let k = choose|k: int| 0 <= k < items.items@.len() && items.items@[k] == it;
            assert(awaits(g@, items.items@[k], symbol));
        }
    }
    false
}

/// Adds to the states those that are reached from state number `k` and are not there
/// yet.
fn add_gotos(g: &Grammar, states: &mut Vec<ItemSet>, k: usize)
    requires
        wf(g@),
        k < old(states)@.len(),
        wf_states(g@, old(states)@),
    ensures
        wf_states(g@, final(states)@),
        item_sets(final(states)@) == with_gotos(
            g@,
            old(states)@[k as int]@,
            item_sets(old(states)@),
            g@.symbols.len() as int,
        ),
{
    let ghost before = item_sets(states@);
    let from: ItemSet = states[k].copy();
    let n: usize = g.symbols.len();
    let mut x: usize = 0;
    while x < n
        invariant
            x <= n,
            n == g@.symbols.len(),
            wf(g@),
            from.wf(),
            all_items(g@, from@),
            wf_states(g@, states@),
            item_sets(states@) == with_gotos(g@, from@, before, x as int),
        decreases n - x,
    {
        if expects_symbol(g, &from, x) {
            let next: ItemSet = goto_of(g, &from, x);
            let at: usize = position(states, &next);
            if at == states.len() {
                let ghost s = states@;
                states.push(next);
                proof {
                    assert(item_sets(states@) =~= item_sets(s).push(next@));
                }
            }
        }
        x += 1;
    }
}

/// The states of the grammar's automaton.
pub fn find_states(g: &Grammar) -> (states: Vec<ItemSet>)
    requires
        wf(g@),
        g@.rules.len() >= 1,
    ensures
        wf_states(g@, states@),
        item_sets(states@) == states_of(g@),
{
    let mut initial: ItemSet = ItemSet::new();
    initial.insert(LR0Item { rule: 0, dot: 0 });
    proof {
        assert(initial@ =~= set![fresh_item(0)]);
    }
    let mut states: Vec<ItemSet> = Vec::new();
    states.push(closure_of(g, &initial));
    proof {
        assert(item_sets(states@) =~= seq![start_state(g@)]);
        assert(states@.len() == states.len());
    }
    let mut k: usize = 0;
    while k < states.len()
        invariant
            wf(g@),
            g@.rules.len() >= 1,
            k <= states@.len(),
            states@.len() <= usize::MAX,
            wf_states(g@, states@),
            item_sets(states@) == visited(g@, k as int),
        decreases usize::MAX - states@.len(), states@.len() - k,
    {
        let ghost before = item_sets(states@);
        proof {
            assert(before[k as int] == states@[k as int]@);
            lemma_visited(g@, k as int);
            lemma_visited(g@, k + 1);
        }
        add_gotos(g, &mut states, k);
        proof {
            assert(visited(g@, k + 1) == with_gotos(
                g@,
                before[k as int],
                before,
                g@.symbols.len() as int,
            ));
            assert(item_sets(states@).len() == states@.len());
            assert(states@.len() == states.len());
        }
        k += 1;
    }
    proof {
        assert(item_sets(states@).len() == states@.len());
        assert(all_visited(g@, k as int));
        lemma_states_of(g@, k as int);
    }
    states
}

} // verus!
