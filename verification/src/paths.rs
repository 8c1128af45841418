//! What the items of a state say: where in the rules one may be behind the symbols that lead
//! to the state.

use crate::automaton::{
    advanced, awaits, closed, closure, expects, fresh_item, goto, is_item, is_reached,
    lemma_closure_closed, lemma_closure_least, lemma_goto_advances, lemma_state_reached,
    lemma_states, start_state, states_of, LR0Item,
};
use crate::entries::{can_accept, can_reduce, can_shift, lemma_entry_allowed, lemma_entry_exists};
use crate::grammar::{complete, is_symbol, wf, wf_rule, GrammarView};
use crate::machine::action_in;
use crate::tables::{action_row, goto_row, has_room, lemma_targets, tables, target, ERROR_ACTION};
use vstd::prelude::*;

verus! {

/// The symbols in front of the marks of the items, one item after the other.
pub open spec fn read_symbols(g: GrammarView, sp: Seq<LR0Item>) -> Seq<usize>
    decreases sp.len(),
{
    if sp.len() == 0 {
        Seq::empty()
    } else {
        read_symbols(g, sp.drop_last()) + g.rules[sp.last().rule as int].rhs.take(
            sp.last().dot as int,
        )
    }
}

/// Whether the rule of item number `j + 1` is one of the symbol that the mark of item number
/// `j` stands in front of.
pub open spec fn goes_down(g: GrammarView, sp: Seq<LR0Item>, j: int) -> bool {
    awaits(g, sp[j], g.rules[sp[j + 1].rule as int].lhs)
}

/// Whether the items lead from the rule for the whole input down into the rules, and the
/// symbols in front of their marks are `a`.
pub open spec fn is_spine(g: GrammarView, sp: Seq<LR0Item>, a: Seq<usize>) -> bool {
    &&& sp.len() >= 1
    &&& sp[0].rule == 0
    &&& forall|j: int| 0 <= j < sp.len() ==> is_item(g, #[trigger] sp[j])
    &&& forall|j: int| 0 <= j < sp.len() - 1 ==> #[trigger] goes_down(g, sp, j)
    &&& read_symbols(g, sp) == a
}

/// Whether one may be at the mark of the item when the symbols `a` have been read.
pub open spec fn is_valid(g: GrammarView, it: LR0Item, a: Seq<usize>) -> bool {
    exists|sp: Seq<LR0Item>| #[trigger] is_spine(g, sp, a) && sp.last() == it
}

/// The state that is reached from the first one by the symbols.
pub open spec fn walk(g: GrammarView, a: Seq<usize>) -> Set<LR0Item>
    decreases a.len(),
{
    if a.len() == 0 {
        start_state(g)
    } else {
        goto(g, walk(g, a.drop_last()), a.last())
    }
}

proof fn lemma_walk_closed(g: GrammarView, a: Seq<usize>)
    ensures
        closed(g, walk(g, a)),
{
    if a.len() == 0 {
        lemma_closure_closed(g, set![fresh_item(0)]);
    } else {
        lemma_closure_closed(g, advanced(g, walk(g, a.drop_last()), a.last()));
    }
}

proof fn lemma_valid_in_state(g: GrammarView, sp: Seq<LR0Item>, a: Seq<usize>)
    requires
        wf(g),
        is_spine(g, sp, a),
    ensures
        walk(g, a).contains(sp.last()),
    decreases a.len(), sp.len(),
{
    let last = sp.last();
    let n = sp.len() - 1;
    assert(is_item(g, sp[n]));
    let rhs = g.rules[last.rule as int].rhs;
    if last.dot > 0 {
        let b = a.drop_last();
        let x = rhs[last.dot - 1];
        let less = LR0Item { rule: last.rule, dot: (last.dot - 1) as usize };
        let tp = sp.update(n, less);
        assert(rhs.take(last.dot as int) =~= rhs.take(last.dot - 1).push(x));
        assert(tp.drop_last() =~= sp.drop_last());
        assert(a =~= read_symbols(g, tp).push(x));
        assert(read_symbols(g, tp) =~= b);
        assert forall|j: int| 0 <= j < tp.len() implies is_item(g, #[trigger] tp[j]) by {
            assert(is_item(g, sp[j]));
        }
        assert forall|j: int| 0 <= j < tp.len() - 1 implies #[trigger] goes_down(g, tp, j) by {
            assert(goes_down(g, sp, j));
        }
        lemma_valid_in_state(g, tp, b);
        assert(wf_rule(g, g.rules[last.rule as int]));
        lemma_goto_advances(g, walk(g, b), x, less);
    } else if sp.len() == 1 {
        assert(read_symbols(g, sp.drop_last()) =~= Seq::empty());
        assert(a =~= Seq::empty());
        assert(last == fresh_item(0));
        lemma_closure_closed(g, set![fresh_item(0)]);
    } else {
        let tp = sp.drop_last();
        assert(a =~= read_symbols(g, tp));
        assert forall|j: int| 0 <= j < tp.len() implies is_item(g, #[trigger] tp[j]) by {
            assert(is_item(g, sp[j]));
        }
        assert forall|j: int| 0 <= j < tp.len() - 1 implies #[trigger] goes_down(g, tp, j) by {
            assert(goes_down(g, sp, j));
        }
        lemma_valid_in_state(g, tp, a);
        assert(goes_down(g, sp, n - 1));
        lemma_walk_closed(g, a);
        assert(tp.last() == sp[n - 1]);
        assert(last == fresh_item(last.rule as int));
        assert(awaits(g, tp.last(), g.rules[last.rule as int].lhs));
    }
}

/// The items at whose marks one may be.
spec fn valid_items(g: GrammarView, a: Seq<usize>) -> Set<LR0Item> {
    Set::new(|it: LR0Item| is_valid(g, it, a))
}

proof fn lemma_valid_closed(g: GrammarView, a: Seq<usize>)
    requires
        wf(g),
    ensures
        closed(g, valid_items(g, a)),
{
    let c = valid_items(g, a);
    assert forall|it: LR0Item, r: int|
        #[trigger] c.contains(it) && 0 <= r < g.rules.len() && awaits(
            g,
            it,
            (#[trigger] g.rules[r]).lhs,
        ) implies c.contains(fresh_item(r)) by {
        let sp = choose|sp: Seq<LR0Item>| #[trigger] is_spine(g, sp, a) && sp.last() == it;
        let tp = sp.push(fresh_item(r));
        assert(tp.drop_last() =~= sp);
        assert(g.rules[r].rhs.take(0) =~= Seq::empty());
        assert(read_symbols(g, tp) =~= a);
        assert forall|j: int| 0 <= j < tp.len() implies is_item(g, #[trigger] tp[j]) by {
            if j < sp.len() {
                assert(is_item(g, sp[j]));
            }
        }
        assert forall|j: int| 0 <= j < tp.len() - 1 implies #[trigger] goes_down(g, tp, j) by {
            if j < sp.len() - 1 {
                assert(goes_down(g, sp, j));
            }
        }
        assert(is_spine(g, tp, a));
        assert(tp.last() == fresh_item(r));
    }
}

proof fn lemma_state_valid(g: GrammarView, a: Seq<usize>)
    requires
        wf(g),
        g.rules.len() >= 1,
    ensures
        walk(g, a).subset_of(valid_items(g, a)),
    decreases a.len(),
{
    let c = valid_items(g, a);
    lemma_valid_closed(g, a);
    if a.len() == 0 {
        let sp = seq![fresh_item(0)];
        assert(sp.drop_last() =~= Seq::empty());
        assert(g.rules[0].rhs.take(0) =~= Seq::empty());
        assert(read_symbols(g, sp.drop_last()) =~= Seq::empty());
        assert(read_symbols(g, sp) =~= a);
        assert(is_spine(g, sp, a));
        assert(sp.last() == fresh_item(0));
        assert(set![fresh_item(0)].subset_of(c));
        lemma_closure_least(g, set![fresh_item(0)], c);
    } else {
        let b = a.drop_last();
        let x = a.last();
        lemma_state_valid(g, b);
        let base = advanced(g, walk(g, b), x);
        assert forall|it: LR0Item| #[trigger] base.contains(it) implies c.contains(it) by {
            let from = LR0Item { rule: it.rule, dot: (it.dot - 1) as usize };
            assert(walk(g, b).contains(from));
            assert(valid_items(g, b).contains(from));
            let sp = choose|sp: Seq<LR0Item>| #[trigger] is_spine(g, sp, b) && sp.last() == from;
            let n = sp.len() - 1;
            assert(is_item(g, sp[n]));
            let tp = sp.update(n, it);
            let rhs = g.rules[it.rule as int].rhs;
            assert(tp.drop_last() =~= sp.drop_last());
            assert(rhs.take(it.dot as int) =~= rhs.take(from.dot as int).push(x));
            assert(read_symbols(g, tp) =~= read_symbols(g, sp).push(x));
            assert(a =~= b.push(x));
            assert forall|j: int| 0 <= j < tp.len() implies is_item(g, #[trigger] tp[j]) by {
                assert(is_item(g, sp[j]));
            }
            assert forall|j: int| 0 <= j < tp.len() - 1 implies #[trigger] goes_down(g, tp, j) by {
                assert(goes_down(g, sp, j));
            }
            assert(is_spine(g, tp, a));
            assert(tp.last() == it);
        }
        lemma_closure_least(g, base, c);
    }
}

/// The state that is reached by some symbols holds just the items at whose marks one may be
/// when these symbols have been read: those to which one comes from the rule for the whole
/// input by going down into rules and over symbols.
pub proof fn law_state_items(g: GrammarView, a: Seq<usize>, it: LR0Item)
    requires
        wf(g),
        g.rules.len() >= 1,
    ensures
        walk(g, a).contains(it) <==> is_valid(g, it, a),
{
    lemma_state_valid(g, a);
    if walk(g, a).contains(it) {
        assert(valid_items(g, a).contains(it));
    }
    if is_valid(g, it, a) {
        let sp = choose|sp: Seq<LR0Item>| #[trigger] is_spine(g, sp, a) && sp.last() == it;
        lemma_valid_in_state(g, sp, a);
    }
}

/// Each state of the tables is reached by some symbols, and no two states of the tables are
/// the same.
pub proof fn law_state_reached(g: GrammarView, k: int)
    requires
        wf(g),
        g.rules.len() >= 1,
        0 <= k < tables(g).states.len(),
    ensures
        exists|a: Seq<usize>| #[trigger] walk(g, a) == tables(g).states[k],
        forall|j: int|
            0 <= j < tables(g).states.len() && j != k ==> #[trigger] tables(g).states[j]
                != tables(g).states[k],
    decreases k,
{
    lemma_states(g);
    let s = states_of(g);
    if k == 0 {
        assert(walk(g, Seq::empty()) == s[0]);
    } else {
        lemma_state_reached(g, k);
        let (j, x) = choose|j: int, x: usize| 0 <= j < k && #[trigger] is_reached(g, s, j, x, k);
        law_state_reached(g, j);
        let a = choose|a: Seq<usize>| #[trigger] walk(g, a) == s[j];
        assert(a.push(x).drop_last() =~= a);
        assert(walk(g, a.push(x)) == s[k]);
    }
}

/// Whether the tables lead from state number `j` to state number `k` by the symbol: the
/// table of the nonterminals, or a shift of the terminal.
pub open spec fn table_leads(g: GrammarView, j: int, x: usize, k: int) -> bool {
    let v = tables(g);
    ||| v.gotos[j].dom().contains(x) && v.gotos[j][x] == k
    ||| v.actions[j].dom().contains(x) && v.actions[j][x] == k + 1 && k >= 0
}

/// Whether the tables lead from state to state by the symbols.
pub open spec fn is_table_path(g: GrammarView, ks: Seq<int>, a: Seq<usize>) -> bool {
    &&& ks.len() == a.len() + 1
    &&& ks[0] == 0
    &&& forall|i: int|
        0 <= i < ks.len() ==> 0 <= #[trigger] ks[i] < tables(g).states.len()
    &&& forall|i: int| 0 <= i < a.len() ==> #[trigger] table_step(g, ks, a, i)
}

/// Whether the tables lead from one state of the list to the next by the symbol between
/// them.
pub open spec fn table_step(g: GrammarView, ks: Seq<int>, a: Seq<usize>, i: int) -> bool {
    table_leads(g, ks[i], a[i], ks[i + 1])
}

/// Where the tables lead by some symbols from the first state, the state holds just the
/// items at whose marks one may be when these symbols have been read.
pub proof fn law_table_path(g: GrammarView, ks: Seq<int>, a: Seq<usize>, it: LR0Item)
    requires
        complete(g),
        has_room(g),
        is_table_path(g, ks, a),
    ensures
        tables(g).states[ks.last()].contains(it) <==> is_valid(g, it, a),
{
    lemma_table_path(g, ks, a);
    law_state_items(g, a, it);
}

proof fn lemma_table_path(g: GrammarView, ks: Seq<int>, a: Seq<usize>)
    requires
        complete(g),
        has_room(g),
        is_table_path(g, ks, a),
    ensures
        states_of(g)[ks.last()] == walk(g, a),
    decreases a.len(),
{
    lemma_states(g);
    lemma_targets(g);
    if a.len() == 0 {
        assert(ks.last() == ks[0]);
    } else {
        let n = a.len() - 1;
        let js = ks.drop_last();
        let b = a.drop_last();
        assert forall|i: int| 0 <= i < js.len() implies 0 <= #[trigger] js[i]
            < tables(g).states.len() by {
            assert(js[i] == ks[i]);
        }
        assert forall|i: int| 0 <= i < b.len() implies #[trigger] table_step(g, js, b, i) by {
            assert(table_step(g, ks, a, i));
        }
        lemma_table_path(g, js, b);
        assert(table_step(g, ks, a, n));
        let j = ks[n];
        let x = a[n];
        let k = ks[n + 1];
        assert(0 <= ks[n] && 0 <= ks[n + 1]);
        assert(js.last() == j);
        assert(tables(g).gotos[j] == goto_row(g, j));
        assert(tables(g).actions[j] == action_row(g, j));
        if tables(g).gotos[j].dom().contains(x) && tables(g).gotos[j][x] == k {
            assert(expects(g, states_of(g)[j], x));
        } else {
            lemma_entry_allowed(g, j, x);
            assert(can_shift(g, j, x));
            assert(expects(g, states_of(g)[j], x));
        }
        assert(target(g, j, x) == k);
    }
}

/// The table of the nonterminals leads on just where an item of the state awaits the
/// nonterminal, and then to the state that is reached by it.
pub proof fn law_goto_entry(g: GrammarView, a: Seq<usize>, k: int, x: usize)
    requires
        complete(g),
        has_room(g),
        0 <= k < tables(g).states.len(),
        tables(g).states[k] == walk(g, a),
        g.nonterminals.contains(x),
    ensures
        tables(g).gotos[k].dom().contains(x) <==> exists|it: LR0Item| #[trigger]
            is_valid(g, it, a) && awaits(g, it, x),
        tables(g).gotos[k].dom().contains(x) ==> 0 <= tables(g).gotos[k][x]
            < tables(g).states.len() && tables(g).states[tables(g).gotos[k][x] as int] == walk(
            g,
            a.push(x),
        ),
{
    lemma_states(g);
    lemma_targets(g);
    assert(tables(g).gotos[k] == goto_row(g, k));
    assert(a.push(x).drop_last() =~= a);
    if expects(g, states_of(g)[k], x) {
        let it = choose|it: LR0Item| #[trigger] states_of(g)[k].contains(it) && awaits(g, it, x);
        law_state_items(g, a, it);
        assert(is_valid(g, it, a));
    }
    if exists|it: LR0Item| #[trigger] is_valid(g, it, a) && awaits(g, it, x) {
        let it = choose|it: LR0Item| #[trigger] is_valid(g, it, a) && awaits(g, it, x);
        law_state_items(g, a, it);
        assert(expects(g, states_of(g)[k], x));
    }
}

/// Whether the terminal may come next behind the symbols.
pub open spec fn may_shift(g: GrammarView, a: Seq<usize>, t: usize) -> bool {
    g.terminals.contains(t) && exists|it: LR0Item| #[trigger] is_valid(g, it, a) && awaits(g, it, t)
}

/// Whether rule number `r` is complete behind the symbols, and the terminal is one that may
/// follow its left-hand side.
pub open spec fn may_reduce(g: GrammarView, a: Seq<usize>, t: usize, r: int) -> bool {
    &&& 1 <= r < g.rules.len()
    &&& is_valid(g, LR0Item { rule: r as usize, dot: g.rules[r].rhs.len() as usize }, a)
    &&& tables(g).follow.contains((g.rules[r].lhs, t))
}

/// Whether the rule for the whole input is complete behind the symbols.
pub open spec fn may_accept(g: GrammarView, a: Seq<usize>) -> bool {
    is_valid(g, LR0Item { rule: 0, dot: g.rules[0].rhs.len() as usize }, a)
}

/// What a state allows is what may be done behind the symbols that lead to it.
pub proof fn lemma_allowed(g: GrammarView, a: Seq<usize>, k: int, t: usize, r: int)
    requires
        complete(g),
        0 <= k < tables(g).states.len(),
        tables(g).states[k] == walk(g, a),
    ensures
        can_shift(g, k, t) <==> may_shift(g, a, t),
        can_reduce(g, k, t, r) <==> may_reduce(g, a, t, r),
        can_accept(g, k, t) <==> t == crate::grammar::EOF_TOKEN && may_accept(g, a),
{
    if can_shift(g, k, t) {
        let it = choose|it: LR0Item| #[trigger] states_of(g)[k].contains(it) && awaits(g, it, t);
        law_state_items(g, a, it);
        assert(is_valid(g, it, a));
    }
    if may_shift(g, a, t) {
        let it = choose|it: LR0Item| #[trigger] is_valid(g, it, a) && awaits(g, it, t);
        law_state_items(g, a, it);
        assert(expects(g, states_of(g)[k], t));
    }
    if 1 <= r < g.rules.len() {
        law_state_items(
            g,
            a,
            LR0Item { rule: r as usize, dot: g.rules[r].rhs.len() as usize },
        );
    }
    law_state_items(g, a, LR0Item { rule: 0, dot: g.rules[0].rhs.len() as usize });
}

/// Where just one thing may be done behind some symbols when a terminal is next, the table
/// of the state that they lead to says it: to shift and go to the state that is reached, to
/// reduce by the rule, or to accept. Where nothing may be done, the input is refused. No
/// conflict is counted.
pub proof fn law_action_entry(g: GrammarView, a: Seq<usize>, k: int, t: usize)
    requires
        complete(g),
        has_room(g),
        0 <= k < tables(g).states.len(),
        tables(g).states[k] == walk(g, a),
        is_symbol(g, t),
    ensures
        ({
            let v = tables(g);
            let act = action_in(v, k, t);
            let accept = t == crate::grammar::EOF_TOKEN && may_accept(g, a);
            let shift = may_shift(g, a, t);
            let reduce = exists|r: int| #[trigger] may_reduce(g, a, t, r);
            &&& accept ==> act == 0
            &&& shift && !reduce && !accept ==> act > 0 && act - 1 < v.states.len()
                && v.states[act - 1] == walk(g, a.push(t))
            &&& !shift && !accept ==> forall|r: int|
                may_reduce(g, a, t, r) && (forall|q: int| #[trigger]
                    may_reduce(g, a, t, q) ==> r <= q) ==> act == -r - 1
            &&& !shift && !accept && !reduce ==> act == ERROR_ACTION
        }),
{
    let v = tables(g);
    lemma_targets(g);
    assert(v.actions[k] == action_row(g, k));
    lemma_entry_exists(g, k, t);
    lemma_allowed(g, a, k, t, 0);
    assert(a.push(t).drop_last() =~= a);
    let accept = t == crate::grammar::EOF_TOKEN && may_accept(g, a);
    let shift = may_shift(g, a, t);
    if accept {
        crate::entries::lemma_entry_accepts(g, k, t);
    }
    assert forall|r: int| #[trigger] can_reduce(g, k, t, r) <==> may_reduce(g, a, t, r) by {
        lemma_allowed(g, a, k, t, r);
    }
    if action_row(g, k).dom().contains(t) {
        lemma_entry_allowed(g, k, t);
    }
    if shift && !accept && !(exists|r: int| #[trigger] may_reduce(g, a, t, r)) {
        assert(expects(g, states_of(g)[k], t));
        crate::entries::lemma_entry_shifts(g, k, t);
    }
    if !shift && !accept {
        assert forall|r: int|
            may_reduce(g, a, t, r) && (forall|q: int| #[trigger]
                may_reduce(g, a, t, q) ==> r <= q) implies action_in(v, k, t) == -r - 1 by {
            assert(can_reduce(g, k, t, r));
            crate::precedence::law_conflict_lowest(g, k, t, r);
        }
    }
}

/// Whether the items lead from one of `c` down into rules, each of them begun just now.
pub open spec fn is_descent(g: GrammarView, c: Set<LR0Item>, sp: Seq<LR0Item>) -> bool {
    &&& sp.len() >= 1
    &&& c.contains(sp[0])
    &&& forall|j: int|
        1 <= j < sp.len() ==> (#[trigger] sp[j]).dot == 0 && sp[j].rule < g.rules.len()
    &&& forall|j: int| 0 <= j < sp.len() - 1 ==> #[trigger] goes_down(g, sp, j)
}

/// The closure of some items holds just those to which one comes from them by going down into
/// rules.
pub proof fn law_closure(g: GrammarView, c: Set<LR0Item>, it: LR0Item)
    requires
        wf(g),
    ensures
        closure(g, c).contains(it) <==> exists|sp: Seq<LR0Item>| #[trigger]
            is_descent(g, c, sp) && sp.last() == it,
{
    let d = Set::new(
        |x: LR0Item| exists|sp: Seq<LR0Item>| #[trigger] is_descent(g, c, sp) && sp.last() == x,
    );
    assert forall|x: LR0Item| #[trigger] c.contains(x) implies d.contains(x) by {
        let sp = seq![x];
        assert(is_descent(g, c, sp) && sp.last() == x);
    }
    assert forall|x: LR0Item, r: int|
        #[trigger] d.contains(x) && 0 <= r < g.rules.len() && awaits(
            g,
            x,
            (#[trigger] g.rules[r]).lhs,
        ) implies d.contains(fresh_item(r)) by {
        let sp = choose|sp: Seq<LR0Item>| #[trigger] is_descent(g, c, sp) && sp.last() == x;
        let tp = sp.push(fresh_item(r));
        assert forall|j: int| 1 <= j < tp.len() implies (#[trigger] tp[j]).dot == 0 && tp[j].rule
            < g.rules.len() by {
            if j < sp.len() {
                assert(sp[j].dot == 0);
            }
        }
        assert forall|j: int| 0 <= j < tp.len() - 1 implies #[trigger] goes_down(g, tp, j) by {
            if j < sp.len() - 1 {
                assert(goes_down(g, sp, j));
            }
        }
        assert(is_descent(g, c, tp) && tp.last() == fresh_item(r));
    }
    lemma_closure_least(g, c, d);
    if closure(g, c).contains(it) {
        assert(d.contains(it));
    }
    if exists|sp: Seq<LR0Item>| #[trigger] is_descent(g, c, sp) && sp.last() == it {
        let sp = choose|sp: Seq<LR0Item>| #[trigger] is_descent(g, c, sp) && sp.last() == it;
        lemma_descent(g, c, sp);
    }
}

proof fn lemma_descent(g: GrammarView, c: Set<LR0Item>, sp: Seq<LR0Item>)
    requires
        is_descent(g, c, sp),
    ensures
        closure(g, c).contains(sp.last()),
    decreases sp.len(),
{
    lemma_closure_closed(g, c);
    if sp.len() > 1 {
        let tp = sp.drop_last();
        let n = sp.len() - 1;
        assert forall|j: int| 1 <= j < tp.len() implies (#[trigger] tp[j]).dot == 0 && tp[j].rule
            < g.rules.len() by {
            assert(sp[j].dot == 0);
        }
        assert forall|j: int| 0 <= j < tp.len() - 1 implies #[trigger] goes_down(g, tp, j) by {
            assert(goes_down(g, sp, j));
        }
        lemma_descent(g, c, tp);
        assert(goes_down(g, sp, n - 1));
        assert(tp.last() == sp[n - 1]);
        assert(sp[n].dot == 0);
        assert(sp[n] == fresh_item(sp[n].rule as int));
        assert(awaits(g, tp.last(), g.rules[sp[n].rule as int].lhs));
    }
}

/// What is reached from a state by a symbol holds the items of the state that await it, with
/// the mark moved over it, and those to which one comes from them by going down.
pub proof fn law_goto(g: GrammarView, c: Set<LR0Item>, x: usize, it: LR0Item)
    requires
        wf(g),
        forall|y: LR0Item| #[trigger] c.contains(y) ==> is_item(g, y),
    ensures
        it.dot > 0 ==> (goto(g, c, x).contains(it) <==> c.contains(
            LR0Item { rule: it.rule, dot: (it.dot - 1) as usize },
        ) && awaits(g, LR0Item { rule: it.rule, dot: (it.dot - 1) as usize }, x)),
        goto(g, c, x).contains(it) <==> exists|sp: Seq<LR0Item>| #[trigger]
            is_descent(g, advanced(g, c, x), sp) && sp.last() == it,
{
    law_closure(g, advanced(g, c, x), it);
    if it.dot > 0 {
        let from = LR0Item { rule: it.rule, dot: (it.dot - 1) as usize };
        if goto(g, c, x).contains(it) {
            crate::automaton::lemma_goto_origin(g, c, x, it);
        }
        if c.contains(from) && awaits(g, from, x) {
            lemma_goto_advances(g, c, x, from);
        }
    }
}

} // verus!
