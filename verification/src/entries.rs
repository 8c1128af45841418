//! What the entries of the tables mean.

use crate::automaton::{
    advanced, ahead, all_items, awaits, closed, expects, fresh_item, in_order, is_item, is_reached,
    lemma_closure_adds, lemma_closure_least, lemma_goto_origin, lemma_state_listed,
    lemma_state_reached, lemma_states, listed, states_of, LR0Item,
};
use crate::grammar::{complete, is_symbol, wf_rule, GrammarView, EOF_TOKEN};
use crate::sets::lemma_follow_terminals;
use crate::tables::{
    action_row, cell, cell_at, conflicts, follow_of, has_room, lemma_cell_without_shift,
    lemma_targets, reduce_by, reduced_rule, reduces, resolved, row_conflicts, settled, shift_to,
    target, token_prec, with_item, ACCEPT_ACTION, ERROR_ACTION,
};
use vstd::prelude::*;

verus! {

/// The rule with the mark behind its last symbol.
pub open spec fn done_item(g: GrammarView, r: int) -> LR0Item {
    LR0Item { rule: r as usize, dot: g.rules[r].rhs.len() as usize }
}

/// Whether `t` can be shifted in state number `k`.
pub open spec fn can_shift(g: GrammarView, k: int, t: usize) -> bool {
    g.terminals.contains(t) && expects(g, states_of(g)[k], t)
}

/// Whether rule number `r` can be reduced by in state number `k` when `t` is next.
pub open spec fn can_reduce(g: GrammarView, k: int, t: usize, r: int) -> bool {
    &&& 1 <= r < g.rules.len()
    &&& states_of(g)[k].contains(done_item(g, r))
    &&& follow_of(g).contains((g.rules[r].lhs, t))
}

/// Whether the input can be accepted in state number `k` when `t` is next.
pub open spec fn can_accept(g: GrammarView, k: int, t: usize) -> bool {
    t == EOF_TOKEN && states_of(g)[k].contains(done_item(g, 0))
}

// ---------------------------------------------------------------------------
// One cell
// ---------------------------------------------------------------------------

/// Whether the item shifts `t`.
spec fn shifts(g: GrammarView, t: usize, it: LR0Item) -> bool {
    awaits(g, it, t) && g.terminals.contains(t)
}

/// Whether the item reduces when `t` is next.
spec fn finishes(g: GrammarView, t: usize, it: LR0Item) -> bool {
    &&& it.dot >= g.rules[it.rule as int].rhs.len()
    &&& it.rule != 0
    &&& follow_of(g).contains((g.rules[it.rule as int].lhs, t))
}

/// Whether the item accepts when `t` is next.
spec fn finishes_all(g: GrammarView, t: usize, it: LR0Item) -> bool {
    it.dot >= g.rules[it.rule as int].rhs.len() && it.rule == 0 && t == EOF_TOKEN
}

/// Whether an item of the list gives the action `a`.
spec fn is_given(g: GrammarView, t: usize, shift: int, items: Seq<LR0Item>, a: int) -> bool {
    ||| a == ERROR_ACTION
    ||| exists|i: int| 0 <= i < items.len() && shifts(g, t, #[trigger] items[i]) && a == shift
    ||| exists|i: int|
        0 <= i < items.len() && finishes(g, t, #[trigger] items[i]) && a == reduce_by(
            items[i].rule as int,
        )
    ||| exists|i: int|
        0 <= i < items.len() && finishes_all(g, t, #[trigger] items[i]) && a == ACCEPT_ACTION
}

proof fn lemma_given_stays(
    g: GrammarView,
    t: usize,
    shift: int,
    items: Seq<LR0Item>,
    it: LR0Item,
    a: int,
)
    requires
        is_given(g, t, shift, items, a),
    ensures
        is_given(g, t, shift, items.push(it), a),
{
    let all = items.push(it);
    assert(forall|i: int| 0 <= i < items.len() ==> all[i] == items[i]);
    if exists|i: int| 0 <= i < items.len() && shifts(g, t, #[trigger] items[i]) && a == shift {
        let i = choose|i: int| 0 <= i < items.len() && shifts(g, t, #[trigger] items[i]) && a == shift;
        assert(shifts(g, t, all[i]));
    } else if exists|i: int|
        0 <= i < items.len() && finishes(g, t, #[trigger] items[i]) && a == reduce_by(
            items[i].rule as int,
        ) {
        let i = choose|i: int|
            0 <= i < items.len() && finishes(g, t, #[trigger] items[i]) && a == reduce_by(
                items[i].rule as int,
            );
        assert(finishes(g, t, all[i]));
    } else if exists|i: int|
        0 <= i < items.len() && finishes_all(g, t, #[trigger] items[i]) && a == ACCEPT_ACTION {
        let i = choose|i: int|
            0 <= i < items.len() && finishes_all(g, t, #[trigger] items[i]) && a == ACCEPT_ACTION;
        assert(finishes_all(g, t, all[i]));
    }
}

/// The action of a cell is given by an item, or refuses the input.
proof fn lemma_cell_given(g: GrammarView, t: usize, shift: int, items: Seq<LR0Item>)
    requires
        shift > 0,
        g.rules.len() <= i32::MAX,
        forall|i: int| 0 <= i < items.len() ==> is_item(g, #[trigger] items[i]),
    ensures
        cell(g, t, shift, items).act matches Some(a) ==> is_given(g, t, shift, items, a),
    decreases items.len(),
{
    if items.len() > 0 {
        let before = items.drop_last();
        let it = items.last();
        assert(items =~= before.push(it));
        assert forall|i: int| 0 <= i < before.len() implies is_item(g, #[trigger] before[i]) by {
            assert(before[i] == items[i]);
        }
        lemma_cell_given(g, t, shift, before);
        let c = cell(g, t, shift, before);
        let d = cell(g, t, shift, items);
        assert(d == with_item(g, t, shift, it, c));
        assert(is_item(g, items[items.len() - 1]));
        match c.act {
            Some(a) => {
                lemma_given_stays(g, t, shift, before, it, a);
            },
            None => {},
        }
        match d.act {
            Some(b) => {
                let n = items.len() - 1;
                if c.act != Some(b) && b != ERROR_ACTION {
                    if b == shift {
                        if shifts(g, t, it) {
                            assert(shifts(g, t, items[n]));
                        }
                    } else if b == ACCEPT_ACTION && finishes_all(g, t, it) {
                        assert(finishes_all(g, t, items[n]));
                    } else if finishes(g, t, it) {
                        assert(finishes(g, t, items[n]));
                    }
                }
            },
            None => {},
        }
    }
}

/// A cell has an action where an item gives one, and only there.
proof fn lemma_cell_total(g: GrammarView, t: usize, shift: int, items: Seq<LR0Item>)
    ensures
        cell(g, t, shift, items).act is Some <==> exists|i: int|
            0 <= i < items.len() && (shifts(g, t, #[trigger] items[i]) || finishes(g, t, items[i])
                || finishes_all(g, t, items[i])),
    decreases items.len(),
{
    if items.len() > 0 {
        let before = items.drop_last();
        let n = items.len() - 1;
        lemma_cell_total(g, t, shift, before);
        assert(forall|i: int| 0 <= i < n ==> before[i] == items[i]);
        let it = items[n];
        if cell(g, t, shift, before).act is Some {
            let i = choose|i: int|
                0 <= i < before.len() && (shifts(g, t, #[trigger] before[i]) || finishes(
                    g,
                    t,
                    before[i],
                ) || finishes_all(g, t, before[i]));
            assert(items[i] == before[i]);
        }
        if cell(g, t, shift, items).act is Some && cell(g, t, shift, before).act is None {
            assert(shifts(g, t, items[n]) || finishes(g, t, items[n]) || finishes_all(
                g,
                t,
                items[n],
            ));
        }
        if exists|i: int|
            0 <= i < items.len() && (shifts(g, t, #[trigger] items[i]) || finishes(g, t, items[i])
                || finishes_all(g, t, items[i])) {
            let i = choose|i: int|
                0 <= i < items.len() && (shifts(g, t, #[trigger] items[i]) || finishes(
                    g,
                    t,
                    items[i],
                ) || finishes_all(g, t, items[i]));
            if i < n {
                assert(before[i] == items[i]);
            }
        }
    }
}

/// Where an item accepts, the cell does.
proof fn lemma_cell_accepts(g: GrammarView, t: usize, shift: int, items: Seq<LR0Item>, i: int)
    requires
        0 <= i < items.len(),
        finishes_all(g, t, items[i]),
    ensures
        cell(g, t, shift, items).act == Some(ACCEPT_ACTION as int),
    decreases items.len(),
{
    let before = items.drop_last();
    if i < items.len() - 1 {
        assert(before[i] == items[i]);
        lemma_cell_accepts(g, t, shift, before, i);
    }
}

/// Where precedence settles nothing, no conflict is counted and no item accepts, all items
/// that give an action give that of the cell.
proof fn lemma_cell_agrees(g: GrammarView, t: usize, shift: int, items: Seq<LR0Item>)
    requires
        shift > 0,
        g.rules.len() <= i32::MAX,
        forall|i: int| 0 <= i < items.len() ==> is_item(g, #[trigger] items[i]),
        forall|i: int| 0 <= i < items.len() ==> !finishes_all(g, t, #[trigger] items[i]),
        forall|r: int| !#[trigger] settled(g, t, r),
        cell(g, t, shift, items).sr == 0,
        cell(g, t, shift, items).rr == 0,
    ensures
        forall|i: int|
            0 <= i < items.len() && shifts(g, t, #[trigger] items[i]) ==> cell(
                g,
                t,
                shift,
                items,
            ).act == Some(shift),
        forall|i: int|
            0 <= i < items.len() && finishes(g, t, #[trigger] items[i]) ==> cell(
                g,
                t,
                shift,
                items,
            ).act == Some(reduce_by(items[i].rule as int)),
        cell(g, t, shift, items).act matches Some(a) ==> a == shift || reduces(a),
    decreases items.len(),
{
    if items.len() > 0 {
        let before = items.drop_last();
        let n = items.len() - 1;
        let it = items[n];
        assert(forall|i: int| 0 <= i < n ==> before[i] == items[i]);
        assert forall|i: int| 0 <= i < before.len() implies is_item(g, #[trigger] before[i])
            && !finishes_all(g, t, before[i]) by {
            assert(before[i] == items[i]);
        }
        assert(is_item(g, items[n]));
        assert(!finishes_all(g, t, items[n]));
        let c = cell(g, t, shift, before);
        let d = cell(g, t, shift, items);
        assert(d == with_item(g, t, shift, it, c));
        assert(c.sr <= d.sr && c.rr <= d.rr);
        lemma_cell_agrees(g, t, shift, before);
        lemma_cell_total(g, t, shift, before);
        assert forall|i: int| 0 <= i < items.len() && shifts(g, t, #[trigger] items[i]) implies d.act
            == Some(shift) by {
            if i < n {
                assert(shifts(g, t, before[i]));
                assert(c.act == Some(shift));
            } else {
                match c.act {
                    Some(a) => {
                        if reduces(a) {
                            assert(!settled(g, t, reduced_rule(a)));
                        }
                    },
                    None => {},
                }
            }
        }
        assert forall|i: int|
            0 <= i < items.len() && finishes(g, t, #[trigger] items[i]) implies d.act == Some(
            reduce_by(items[i].rule as int),
        ) by {
            if i < n {
                assert(finishes(g, t, before[i]));
                assert(c.act == Some(reduce_by(items[i].rule as int)));
                let r = items[i].rule as int;
                assert(is_item(g, items[i]));
                assert(reduces(reduce_by(r)));
                if shifts(g, t, it) {
                    assert(!settled(g, t, reduced_rule(reduce_by(r))));
                }
            } else {
                match c.act {
                    Some(a) => {
                        assert(!settled(g, t, it.rule as int));
                    },
                    None => {},
                }
            }
        }
    }
}

/// Where no item shifts or accepts, the rule with the lowest number wins among those that
/// items reduce by.
proof fn lemma_cell_lowest(g: GrammarView, t: usize, shift: int, items: Seq<LR0Item>)
    requires
        g.rules.len() <= i32::MAX,
        forall|i: int| 0 <= i < items.len() ==> is_item(g, #[trigger] items[i]),
        forall|i: int|
            0 <= i < items.len() ==> !shifts(g, t, #[trigger] items[i]) && !finishes_all(
                g,
                t,
                items[i],
            ),
    ensures
        cell(g, t, shift, items).act matches Some(a) ==> reduces(a) && forall|i: int|
            0 <= i < items.len() && finishes(g, t, #[trigger] items[i]) ==> reduced_rule(a)
                <= items[i].rule,
    decreases items.len(),
{
    if items.len() > 0 {
        let before = items.drop_last();
        let n = items.len() - 1;
        assert(forall|i: int| 0 <= i < n ==> before[i] == items[i]);
        assert forall|i: int| 0 <= i < before.len() implies is_item(g, #[trigger] before[i])
            && !shifts(g, t, before[i]) && !finishes_all(g, t, before[i]) by {
            assert(before[i] == items[i]);
        }
        assert(is_item(g, items[n]));
        assert(!shifts(g, t, items[n]) && !finishes_all(g, t, items[n]));
        lemma_cell_lowest(g, t, shift, before);
        lemma_cell_total(g, t, shift, before);
        match cell(g, t, shift, items).act {
            Some(a) => {
                assert forall|i: int|
                    0 <= i < items.len() && finishes(
                        g,
                        t,
                        #[trigger] items[i],
                    ) implies reduced_rule(a) <= items[i].rule by {
                    if i < n {
                        assert(finishes(g, t, before[i]));
                    }
                }
            },
            None => {},
        }
    }
}

/// Where items shift and just one item reduces, by rule number `r`, the cell has what
/// precedence makes of the two, and a conflict is counted where it settles nothing.
proof fn lemma_cell_resolved(g: GrammarView, t: usize, shift: int, items: Seq<LR0Item>, r: int)
    requires
        shift > 0,
        0 <= r < g.rules.len() <= i32::MAX,
        in_order(items),
        forall|i: int| 0 <= i < items.len() ==> is_item(g, #[trigger] items[i]),
        forall|i: int| 0 <= i < items.len() ==> !finishes_all(g, t, #[trigger] items[i]),
        forall|i: int|
            0 <= i < items.len() && finishes(g, t, #[trigger] items[i]) ==> items[i].rule == r,
    ensures
        ({
            let c = cell(g, t, shift, items);
            let s = exists|i: int| 0 <= i < items.len() && shifts(g, t, #[trigger] items[i]);
            let f = exists|i: int| 0 <= i < items.len() && finishes(g, t, #[trigger] items[i]);
            &&& s && f ==> c.act == Some(resolved(g, t, r, shift)) && c.sr == if settled(g, t, r) {
                0nat
            } else {
                1
            }
            &&& s && !f ==> c.act == Some(shift) && c.sr == 0
            &&& !s && f ==> c.act == Some(reduce_by(r)) && c.sr == 0
            &&& !s && !f ==> c.act is None && c.sr == 0
            &&& c.rr == 0
        }),
    decreases items.len(),
{
    if items.len() > 0 {
        let before = items.drop_last();
        let n = items.len() - 1;
        let it = items[n];
        assert(forall|i: int| 0 <= i < n ==> before[i] == items[i]);
        assert(in_order(before));
        assert forall|i: int| 0 <= i < before.len() implies is_item(g, #[trigger] before[i])
            && !finishes_all(g, t, before[i]) && (finishes(g, t, before[i]) ==> before[i].rule
            == r) by {
            assert(before[i] == items[i]);
        }
        lemma_cell_resolved(g, t, shift, before, r);
        assert(is_item(g, items[n]) && !finishes_all(g, t, items[n]));
        let s0 = exists|i: int| 0 <= i < before.len() && shifts(g, t, #[trigger] before[i]);
        let f0 = exists|i: int| 0 <= i < before.len() && finishes(g, t, #[trigger] before[i]);
        let s = exists|i: int| 0 <= i < items.len() && shifts(g, t, #[trigger] items[i]);
        let f = exists|i: int| 0 <= i < items.len() && finishes(g, t, #[trigger] items[i]);
        assert(s == (s0 || shifts(g, t, it))) by {
            if s0 {
                let i = choose|i: int| 0 <= i < before.len() && shifts(g, t, #[trigger] before[i]);
                assert(shifts(g, t, items[i]));
            }
            if s {
                let i = choose|i: int| 0 <= i < items.len() && shifts(g, t, #[trigger] items[i]);
                if i < n {
                    assert(shifts(g, t, before[i]));
                }
            }
            if shifts(g, t, it) {
                assert(shifts(g, t, items[n]));
            }
        }
        assert(f == (f0 || finishes(g, t, it))) by {
            if f0 {
                let i = choose|i: int| 0 <= i < before.len() && finishes(g, t, #[trigger] before[i]);
                assert(finishes(g, t, items[i]));
            }
            if f {
                let i = choose|i: int| 0 <= i < items.len() && finishes(g, t, #[trigger] items[i]);
                if i < n {
                    assert(finishes(g, t, before[i]));
                }
            }
            if finishes(g, t, it) {
                assert(finishes(g, t, items[n]));
            }
        }
        if finishes(g, t, it) && f0 {
            let i = choose|i: int| 0 <= i < before.len() && finishes(g, t, #[trigger] before[i]);
            assert(is_item(g, before[i]));
            assert(ahead(items[i], items[n]));
            assert(false);
        }
        assert(reduces(reduce_by(r)) && reduced_rule(reduce_by(r)) == r);
    }
}

// ---------------------------------------------------------------------------
// The tables
// ---------------------------------------------------------------------------

/// The action of state number `k` on `t`; where the table has none, the input is refused.
pub open spec fn entry(g: GrammarView, k: int, t: usize) -> int {
    if action_row(g, k).dom().contains(t) {
        action_row(g, k)[t] as int
    } else {
        ERROR_ACTION as int
    }
}

/// What shifting `t` is taken for in the cell of state number `k`.
spec fn shift_used(g: GrammarView, k: int, t: usize) -> int {
    if expects(g, states_of(g)[k], t) {
        shift_to(target(g, k, t))
    } else {
        1
    }
}

/// What is known of the items of a state, and of its cell.
proof fn lemma_cell_of_state(g: GrammarView, k: int, t: usize)
    requires
        complete(g),
        has_room(g),
        0 <= k < states_of(g).len(),
    ensures
        ({
            let items = listed(states_of(g)[k]);
            let s = shift_used(g, k, t);
            &&& 0 < s <= i32::MAX
            &&& cell_at(g, k, t) == cell(g, t, s, items)
            &&& forall|i: int|
                0 <= i < items.len() ==> is_item(g, #[trigger] items[i])
                    && states_of(g)[k].contains(items[i])
            &&& forall|it: LR0Item| #[trigger]
                states_of(g)[k].contains(it) ==> exists|i: int|
                    0 <= i < items.len() && items[i] == it
        }),
{
    let items = listed(states_of(g)[k]);
    lemma_states(g);
    lemma_state_listed(g, k);
    lemma_targets(g);
    assert forall|i: int| 0 <= i < items.len() implies is_item(g, #[trigger] items[i])
        && states_of(g)[k].contains(items[i]) by {
        assert(items.to_set().contains(items[i]));
        assert(all_items(g, states_of(g)[k]));
    }
    assert forall|it: LR0Item| #[trigger] states_of(g)[k].contains(it) implies exists|i: int|
        0 <= i < items.len() && items[i] == it by {
        assert(items.to_set().contains(it));
    }
    if !expects(g, states_of(g)[k], t) {
        assert forall|i: int| 0 <= i < items.len() implies !awaits(g, #[trigger] items[i], t) by {
            assert(states_of(g)[k].contains(items[i]));
        }
        lemma_cell_without_shift(g, t, shift_to(target(g, k, t)), 1, items);
    }
}

/// Each entry of the table of actions is one that the state allows: it shifts to the state
/// that is reached, reduces by a rule that is complete on what may follow, or accepts where
/// the rule for the whole input is complete at the end of the input.
pub proof fn lemma_entry_allowed(g: GrammarView, k: int, t: usize)
    requires
        complete(g),
        has_room(g),
        0 <= k < states_of(g).len(),
        action_row(g, k).dom().contains(t),
    ensures
        entry(g, k, t) > 0 ==> can_shift(g, k, t) && entry(g, k, t) == shift_to(target(g, k, t)),
        reduces(entry(g, k, t)) ==> can_reduce(g, k, t, reduced_rule(entry(g, k, t))),
        entry(g, k, t) == ACCEPT_ACTION ==> can_accept(g, k, t),
        cell_at(g, k, t).act == Some(entry(g, k, t)),
{
    let items = listed(states_of(g)[k]);
    let s = shift_used(g, k, t);
    lemma_cell_of_state(g, k, t);
    lemma_cell_given(g, t, s, items);
    let a = cell_at(g, k, t).act->0;
    assert(is_given(g, t, s, items, a));
    if exists|i: int| 0 <= i < items.len() && shifts(g, t, #[trigger] items[i]) && a == s {
        let i = choose|i: int| 0 <= i < items.len() && shifts(g, t, #[trigger] items[i]) && a == s;
        assert(states_of(g)[k].contains(items[i]));
        assert(expects(g, states_of(g)[k], t));
        assert(a == a as i32);
    } else if exists|i: int|
        0 <= i < items.len() && finishes(g, t, #[trigger] items[i]) && a == reduce_by(
            items[i].rule as int,
        ) {
        let i = choose|i: int|
            0 <= i < items.len() && finishes(g, t, #[trigger] items[i]) && a == reduce_by(
                items[i].rule as int,
            );
        assert(is_item(g, items[i]));
        assert(items[i] == done_item(g, items[i].rule as int));
        assert(states_of(g)[k].contains(items[i]));
        assert(a == a as i32);
    } else if exists|i: int|
        0 <= i < items.len() && finishes_all(g, t, #[trigger] items[i]) && a == ACCEPT_ACTION {
        let i = choose|i: int|
            0 <= i < items.len() && finishes_all(g, t, #[trigger] items[i]) && a == ACCEPT_ACTION;
        assert(is_item(g, items[i]));
        assert(items[i] == done_item(g, 0));
        assert(states_of(g)[k].contains(items[i]));
    }
}

/// The table of actions has an entry just where the state allows an action.
pub proof fn lemma_entry_exists(g: GrammarView, k: int, t: usize)
    requires
        complete(g),
        has_room(g),
        0 <= k < states_of(g).len(),
        is_symbol(g, t),
    ensures
        action_row(g, k).dom().contains(t) <==> can_shift(g, k, t) || can_accept(g, k, t) || exists|
            r: int,
        | #[trigger] can_reduce(g, k, t, r),
{
    let items = listed(states_of(g)[k]);
    let s = shift_used(g, k, t);
    lemma_cell_of_state(g, k, t);
    lemma_cell_total(g, t, s, items);
    if action_row(g, k).dom().contains(t) {
        let i = choose|i: int|
            0 <= i < items.len() && (shifts(g, t, #[trigger] items[i]) || finishes(g, t, items[i])
                || finishes_all(g, t, items[i]));
        assert(is_item(g, items[i]) && states_of(g)[k].contains(items[i]));
        if shifts(g, t, items[i]) {
            assert(expects(g, states_of(g)[k], t));
        } else if finishes(g, t, items[i]) {
            assert(items[i] == done_item(g, items[i].rule as int));
            assert(can_reduce(g, k, t, items[i].rule as int));
        } else {
            assert(items[i] == done_item(g, 0));
        }
    }
    if can_shift(g, k, t) {
        let it = choose|it: LR0Item| #[trigger] states_of(g)[k].contains(it) && awaits(g, it, t);
        let i = choose|i: int| 0 <= i < items.len() && items[i] == it;
        assert(shifts(g, t, items[i]));
    }
    if can_accept(g, k, t) {
        lemma_done(g, 0);
        let i = choose|i: int| 0 <= i < items.len() && items[i] == done_item(g, 0);
        assert(finishes_all(g, t, items[i]));
    }
    if exists|r: int| #[trigger] can_reduce(g, k, t, r) {
        let r = choose|r: int| #[trigger] can_reduce(g, k, t, r);
        lemma_done(g, r);
        let i = choose|i: int| 0 <= i < items.len() && items[i] == done_item(g, r);
        assert(finishes(g, t, items[i]));
    }
}

proof fn lemma_done(g: GrammarView, r: int)
    requires
        complete(g),
        0 <= r < g.rules.len(),
    ensures
        done_item(g, r).rule == r,
        done_item(g, r).dot == g.rules[r].rhs.len(),
{
    assert(wf_rule(g, g.rules[r]));
}

/// Where a state allows to accept, the table does.
pub proof fn lemma_entry_accepts(g: GrammarView, k: int, t: usize)
    requires
        complete(g),
        has_room(g),
        0 <= k < states_of(g).len(),
        can_accept(g, k, t),
    ensures
        entry(g, k, t) == ACCEPT_ACTION,
{
    let items = listed(states_of(g)[k]);
    let s = shift_used(g, k, t);
    lemma_cell_of_state(g, k, t);
    lemma_done(g, 0);
    let i = choose|i: int| 0 <= i < items.len() && items[i] == done_item(g, 0);
    lemma_cell_accepts(g, t, s, items, i);
    assert(is_symbol(g, t));
}

/// Where a state allows to reduce by several rules and nothing else, the table has the one
/// with the lowest number.
pub proof fn lemma_entry_lowest(g: GrammarView, k: int, t: usize, r: int)
    requires
        complete(g),
        has_room(g),
        0 <= k < states_of(g).len(),
        is_symbol(g, t),
        !can_shift(g, k, t),
        !can_accept(g, k, t),
        can_reduce(g, k, t, r),
    ensures
        reduces(entry(g, k, t)),
        reduced_rule(entry(g, k, t)) <= r,
{
    let items = listed(states_of(g)[k]);
    let s = shift_used(g, k, t);
    lemma_cell_of_state(g, k, t);
    lemma_entry_exists(g, k, t);
    lemma_entry_allowed(g, k, t);
    lemma_done(g, r);
    assert forall|i: int| 0 <= i < items.len() implies !shifts(g, t, #[trigger] items[i])
        && !finishes_all(g, t, items[i]) by {
        assert(states_of(g)[k].contains(items[i]));
        assert(is_item(g, items[i]));
        if finishes_all(g, t, items[i]) {
            assert(items[i] == done_item(g, 0));
        }
    }
    lemma_cell_lowest(g, t, s, items);
    let i = choose|i: int| 0 <= i < items.len() && items[i] == done_item(g, r);
    assert(finishes(g, t, items[i]));
}

/// Where a state allows to shift and to reduce by just one rule, the table has what
/// precedence and associativity make of the two, and a conflict is counted where they
/// settle nothing.
pub proof fn lemma_entry_resolved(g: GrammarView, k: int, t: usize, r: int)
    requires
        complete(g),
        has_room(g),
        0 <= k < states_of(g).len(),
        !can_accept(g, k, t),
        can_shift(g, k, t),
        can_reduce(g, k, t, r),
        forall|q: int| #[trigger] can_reduce(g, k, t, q) ==> q == r,
    ensures
        entry(g, k, t) == resolved(g, t, r, shift_to(target(g, k, t))),
        cell_at(g, k, t).sr == if settled(g, t, r) {
            0nat
        } else {
            1
        },
        cell_at(g, k, t).rr == 0,
{
    let items = listed(states_of(g)[k]);
    let s = shift_used(g, k, t);
    lemma_cell_of_state(g, k, t);
    lemma_state_listed(g, k);
    assert(is_symbol(g, t));
    lemma_entry_exists(g, k, t);
    lemma_entry_allowed(g, k, t);
    lemma_done(g, r);
    assert forall|i: int| 0 <= i < items.len() implies !finishes_all(g, t, #[trigger] items[i])
        && (finishes(g, t, items[i]) ==> items[i].rule == r) by {
        assert(is_item(g, items[i]) && states_of(g)[k].contains(items[i]));
        if finishes_all(g, t, items[i]) {
            assert(items[i] == done_item(g, 0));
        }
        if finishes(g, t, items[i]) {
            assert(items[i] == done_item(g, items[i].rule as int));
            assert(can_reduce(g, k, t, items[i].rule as int));
        }
    }
    lemma_cell_resolved(g, t, s, items, r);
    let it = choose|it: LR0Item| #[trigger] states_of(g)[k].contains(it) && awaits(g, it, t);
    let i = choose|i: int| 0 <= i < items.len() && items[i] == it;
    assert(shifts(g, t, items[i]));
    let j = choose|j: int| 0 <= j < items.len() && items[j] == done_item(g, r);
    assert(finishes(g, t, items[j]));
}

/// Where a state allows to shift and nothing else, the table shifts, and no conflict is
/// counted.
pub proof fn lemma_entry_shifts(g: GrammarView, k: int, t: usize)
    requires
        complete(g),
        has_room(g),
        0 <= k < states_of(g).len(),
        !can_accept(g, k, t),
        can_shift(g, k, t),
        forall|q: int| !#[trigger] can_reduce(g, k, t, q),
    ensures
        entry(g, k, t) == shift_to(target(g, k, t)),
        cell_at(g, k, t).sr == 0,
        cell_at(g, k, t).rr == 0,
{
    let items = listed(states_of(g)[k]);
    let s = shift_used(g, k, t);
    lemma_cell_of_state(g, k, t);
    lemma_state_listed(g, k);
    assert(is_symbol(g, t));
    lemma_entry_exists(g, k, t);
    lemma_entry_allowed(g, k, t);
    assert forall|i: int| 0 <= i < items.len() implies !finishes_all(g, t, #[trigger] items[i])
        && !finishes(g, t, items[i]) by {
        assert(is_item(g, items[i]) && states_of(g)[k].contains(items[i]));
        if finishes_all(g, t, items[i]) {
            assert(items[i] == done_item(g, 0));
        }
        if finishes(g, t, items[i]) {
            assert(items[i] == done_item(g, items[i].rule as int));
            assert(can_reduce(g, k, t, items[i].rule as int));
        }
    }
    lemma_cell_resolved(g, t, s, items, 0);
    let it = choose|it: LR0Item| #[trigger] states_of(g)[k].contains(it) && awaits(g, it, t);
    let i = choose|i: int| 0 <= i < items.len() && items[i] == it;
    assert(shifts(g, t, items[i]));
}

/// The rules by which the items reduce when `t` is next.
spec fn finished_rules(g: GrammarView, t: usize, items: Seq<LR0Item>) -> Set<int>
    decreases items.len(),
{
    if items.len() == 0 {
        Set::empty()
    } else if finishes(g, t, items.last()) {
        finished_rules(g, t, items.drop_last()).insert(items.last().rule as int)
    } else {
        finished_rules(g, t, items.drop_last())
    }
}

proof fn lemma_finished_rules(g: GrammarView, t: usize, items: Seq<LR0Item>, r: int)
    ensures
        finished_rules(g, t, items).finite(),
        finished_rules(g, t, items).contains(r) <==> exists|i: int|
            0 <= i < items.len() && finishes(g, t, #[trigger] items[i]) && items[i].rule == r,
    decreases items.len(),
{
    if items.len() > 0 {
        let before = items.drop_last();
        let n = items.len() - 1;
        lemma_finished_rules(g, t, before, r);
        assert(items.last() == items[n]);
        if finished_rules(g, t, before).contains(r) {
            let i = choose|i: int|
                0 <= i < before.len() && finishes(g, t, #[trigger] before[i]) && before[i].rule == r;
            assert(items[i] == before[i]);
        }
        if exists|i: int|
            0 <= i < items.len() && finishes(g, t, #[trigger] items[i]) && items[i].rule == r {
            let i = choose|i: int|
                0 <= i < items.len() && finishes(g, t, #[trigger] items[i]) && items[i].rule == r;
            if i < n {
                assert(before[i] == items[i]);
            }
        }
    }
}

/// Where no item shifts or accepts, one conflict is counted for each rule but one.
proof fn lemma_cell_count(g: GrammarView, t: usize, shift: int, items: Seq<LR0Item>)
    requires
        g.rules.len() <= i32::MAX,
        in_order(items),
        forall|i: int| 0 <= i < items.len() ==> is_item(g, #[trigger] items[i]),
        forall|i: int|
            0 <= i < items.len() ==> !shifts(g, t, #[trigger] items[i]) && !finishes_all(
                g,
                t,
                items[i],
            ),
    ensures
        ({
            let c = cell(g, t, shift, items);
            let n = finished_rules(g, t, items).len();
            &&& c.sr == 0
            &&& n == 0 ==> c.act is None && c.rr == 0
            &&& n > 0 ==> c.act is Some && reduces(c.act->0) && c.rr == n - 1
        }),
    decreases items.len(),
{
    if items.len() > 0 {
        let before = items.drop_last();
        let n = items.len() - 1;
        let it = items[n];
        assert forall|i: int| 0 <= i < before.len() implies is_item(g, #[trigger] before[i])
            && !shifts(g, t, before[i]) && !finishes_all(g, t, before[i]) by {
            assert(before[i] == items[i]);
        }
        assert forall|i: int, j: int| 0 <= i < j < before.len() implies ahead(
            #[trigger] before[i],
            #[trigger] before[j],
        ) by {
            assert(ahead(items[i], items[j]));
        }
        lemma_cell_count(g, t, shift, before);
        lemma_finished_rules(g, t, before, it.rule as int);
        assert(is_item(g, it));
        assert(!shifts(g, t, it) && !finishes_all(g, t, it));
        let c = cell(g, t, shift, before);
        assert(cell(g, t, shift, items) == with_item(g, t, shift, it, c));
        if finishes(g, t, it) {
            if finished_rules(g, t, before).contains(it.rule as int) {
                let i = choose|i: int|
                    0 <= i < before.len() && finishes(g, t, #[trigger] before[i]) && before[i].rule
                        == it.rule as int;
                assert(is_item(g, before[i]));
                assert(ahead(items[i], items[n]));
                assert(false);
            }
        }
    } else {
        assert(finished_rules(g, t, items) =~= Set::empty());
    }
}

/// Where a state allows neither to shift nor to accept, one conflict is counted for each rule
/// by which it allows to reduce but one.
pub proof fn lemma_entry_count(g: GrammarView, k: int, t: usize)
    requires
        complete(g),
        has_room(g),
        0 <= k < states_of(g).len(),
        !can_accept(g, k, t),
        !can_shift(g, k, t),
    ensures
        ({
            let rules = Set::new(|r: int| can_reduce(g, k, t, r));
            &&& rules.finite()
            &&& cell_at(g, k, t).sr == 0
            &&& cell_at(g, k, t).rr == if rules.len() == 0 {
                0
            } else {
                rules.len() - 1
            }
        }),
{
    let items = listed(states_of(g)[k]);
    let s = shift_used(g, k, t);
    lemma_cell_of_state(g, k, t);
    lemma_state_listed(g, k);
    assert forall|i: int| 0 <= i < items.len() implies !shifts(g, t, #[trigger] items[i])
        && !finishes_all(g, t, items[i]) by {
        assert(states_of(g)[k].contains(items[i]));
        assert(is_item(g, items[i]));
        if shifts(g, t, items[i]) {
            assert(expects(g, states_of(g)[k], t));
        }
        if finishes_all(g, t, items[i]) {
            assert(items[i] == done_item(g, 0));
        }
    }
    lemma_cell_count(g, t, s, items);
    let rules = Set::new(|r: int| can_reduce(g, k, t, r));
    assert forall|r: int| rules.contains(r) <==> #[trigger] finished_rules(g, t, items).contains(
        r,
    ) by {
        lemma_finished_rules(g, t, items, r);
        if rules.contains(r) {
            lemma_done(g, r);
            let j = choose|j: int| 0 <= j < items.len() && items[j] == done_item(g, r);
            assert(finishes(g, t, items[j]) && items[j].rule == r);
        }
        if finished_rules(g, t, items).contains(r) {
            let i = choose|i: int|
                0 <= i < items.len() && finishes(g, t, #[trigger] items[i]) && items[i].rule == r;
            assert(is_item(g, items[i]) && states_of(g)[k].contains(items[i]));
            assert(items[i] == done_item(g, r));
        }
    }
    assert(rules =~= finished_rules(g, t, items));
    lemma_finished_rules(g, t, items, 0);
}

/// Whether the tables leave nothing out that a state allows: each shift and each reduction
/// that is possible is the action in the table.
pub open spec fn faithful(g: GrammarView) -> bool {
    &&& forall|k: int, t: usize|
        0 <= k < states_of(g).len() && #[trigger] can_shift(g, k, t) ==> entry(g, k, t) == shift_to(
            target(g, k, t),
        )
    &&& forall|k: int, t: usize, r: int|
        0 <= k < states_of(g).len() && #[trigger] can_reduce(g, k, t, r) ==> entry(g, k, t)
            == reduce_by(r)
}

proof fn lemma_row_zero(g: GrammarView, k: int, x: int, t: usize)
    requires
        t < x <= usize::MAX,
        row_conflicts(g, k, x) == (0nat, 0nat),
    ensures
        cell_at(g, k, t).sr == 0,
        cell_at(g, k, t).rr == 0,
    decreases x,
{
    if t < x - 1 {
        lemma_row_zero(g, k, x - 1, t);
    }
}

proof fn lemma_conflicts_zero(g: GrammarView, n: int, k: int)
    requires
        0 <= k < n,
        conflicts(g, n) == (0nat, 0nat),
    ensures
        row_conflicts(g, k, g.symbols.len() as int) == (0nat, 0nat),
    decreases n,
{
    if k < n - 1 {
        lemma_conflicts_zero(g, n - 1, k);
    }
}

/// In the state in which the rule for the whole input is complete, nothing else is.
proof fn lemma_accepting_state(g: GrammarView, k: int, it: LR0Item)
    requires
        complete(g),
        0 <= k < states_of(g).len(),
        states_of(g)[k].contains(done_item(g, 0)),
        states_of(g)[k].contains(it),
    ensures
        it == done_item(g, 0),
{
    let s = states_of(g);
    let last = done_item(g, 0);
    lemma_states(g);
    lemma_done(g, 0);
    assert(last.dot == 2);
    if k == 0 {
        lemma_closure_adds(g, set![fresh_item(0)], last);
        assert(false);
    }
    lemma_state_reached(g, k);
    let (j, x) = choose|j: int, x: usize| 0 <= j < k && #[trigger] is_reached(g, s, j, x, k);
    assert(all_items(g, s[j]));
    lemma_goto_origin(g, s[j], x, last);
    assert(g.rules[0].rhs[1] == EOF_TOKEN);
    assert(x == EOF_TOKEN);
    let base = advanced(g, s[j], x);
    assert forall|b: LR0Item| #[trigger] base.contains(b) implies b == last by {
        let from = LR0Item { rule: b.rule, dot: (b.dot - 1) as usize };
        assert(s[j].contains(from));
        assert(is_item(g, from));
        let rhs = g.rules[from.rule as int].rhs;
        assert(rhs[from.dot as int] == EOF_TOKEN);
        if from.rule != 0 {
            assert(g.rules[from.rule as int].lhs != g.augmented_start);
            assert(g.rules[from.rule as int].rhs[from.dot as int] != EOF_TOKEN);
        } else {
            assert(g.rules[0].rhs[0] == g.start->0);
        }
    }
    let only = set![last];
    assert(closed(g, only));
    lemma_closure_least(g, base, only);
    assert(only.contains(it));
}

/// Where no token has a precedence and no conflict is reported, the tables leave nothing
/// out.
pub proof fn lemma_faithful(g: GrammarView)
    requires
        complete(g),
        has_room(g),
        forall|t: usize| #[trigger] g.tokens.dom().contains(t) ==> g.tokens[t].prec == 0,
        conflicts(g, states_of(g).len() as int) == (0nat, 0nat),
    ensures
        faithful(g),
{
    let n = states_of(g).len() as int;
    assert forall|k: int, t: usize| 0 <= k < n && #[trigger] can_shift(g, k, t) implies entry(
        g,
        k,
        t,
    ) == shift_to(target(g, k, t)) by {
        let it = choose|it: LR0Item| #[trigger] states_of(g)[k].contains(it) && awaits(g, it, t);
        assert(is_symbol(g, t));
        if can_accept(g, k, t) {
            lemma_accepting_state(g, k, it);
            lemma_done(g, 0);
        }
        lemma_cell_faithful(g, k, t);
        let items = listed(states_of(g)[k]);
        lemma_cell_of_state(g, k, t);
        let i = choose|i: int| 0 <= i < items.len() && items[i] == it;
        assert(shifts(g, t, items[i]));
        lemma_entry_exists(g, k, t);
        lemma_entry_allowed(g, k, t);
    }
    assert forall|k: int, t: usize, r: int|
        0 <= k < n && #[trigger] can_reduce(g, k, t, r) implies entry(g, k, t) == reduce_by(r) by {
        lemma_done(g, r);
        lemma_follow_terminals(g, g.rules[r].lhs, t);
        if can_accept(g, k, t) {
            lemma_accepting_state(g, k, done_item(g, r));
        }
        lemma_cell_faithful(g, k, t);
        let items = listed(states_of(g)[k]);
        lemma_cell_of_state(g, k, t);
        let i = choose|i: int| 0 <= i < items.len() && items[i] == done_item(g, r);
        assert(finishes(g, t, items[i]));
        lemma_entry_exists(g, k, t);
        lemma_entry_allowed(g, k, t);
    }
}

proof fn lemma_cell_faithful(g: GrammarView, k: int, t: usize)
    requires
        complete(g),
        has_room(g),
        0 <= k < states_of(g).len(),
        is_symbol(g, t),
        !can_accept(g, k, t),
        forall|t: usize| #[trigger] g.tokens.dom().contains(t) ==> g.tokens[t].prec == 0,
        conflicts(g, states_of(g).len() as int) == (0nat, 0nat),
    ensures
        ({
            let items = listed(states_of(g)[k]);
            let s = shift_used(g, k, t);
            &&& forall|i: int|
                0 <= i < items.len() && shifts(g, t, #[trigger] items[i]) ==> cell_at(
                    g,
                    k,
                    t,
                ).act == Some(s)
            &&& forall|i: int|
                0 <= i < items.len() && finishes(g, t, #[trigger] items[i]) ==> cell_at(
                    g,
                    k,
                    t,
                ).act == Some(reduce_by(items[i].rule as int))
        }),
{
    let items = listed(states_of(g)[k]);
    let s = shift_used(g, k, t);
    lemma_cell_of_state(g, k, t);
    lemma_conflicts_zero(g, states_of(g).len() as int, k);
    lemma_row_zero(g, k, g.symbols.len() as int, t);
    assert forall|i: int| 0 <= i < items.len() implies !finishes_all(g, t, #[trigger] items[i]) by {
        assert(is_item(g, items[i]) && states_of(g)[k].contains(items[i]));
        if finishes_all(g, t, items[i]) {
            assert(items[i] == done_item(g, 0));
        }
    }
    assert(token_prec(g, t) == 0);
    assert forall|r: int| !#[trigger] settled(g, t, r) by {}
    lemma_cell_agrees(g, t, s, items);
}

// ---------------------------------------------------------------------------
// Several rules against one shift
// ---------------------------------------------------------------------------

/// Whether an item of the list shifts `t`.
spec fn some_shifts(g: GrammarView, t: usize, items: Seq<LR0Item>) -> bool {
    exists|i: int| 0 <= i < items.len() && shifts(g, t, #[trigger] items[i])
}

/// Whether an item of the list reduces when `t` is next.
spec fn some_finishes(g: GrammarView, t: usize, items: Seq<LR0Item>) -> bool {
    exists|i: int| 0 <= i < items.len() && finishes(g, t, #[trigger] items[i])
}

proof fn lemma_some_step(g: GrammarView, t: usize, items: Seq<LR0Item>)
    requires
        items.len() > 0,
    ensures
        some_shifts(g, t, items) <==> some_shifts(g, t, items.drop_last()) || shifts(
            g,
            t,
            items.last(),
        ),
        some_finishes(g, t, items) <==> some_finishes(g, t, items.drop_last()) || finishes(
            g,
            t,
            items.last(),
        ),
{
    let before = items.drop_last();
    let n = items.len() - 1;
    assert(items.last() == items[n]);
    if some_shifts(g, t, before) {
        let i = choose|i: int| 0 <= i < before.len() && shifts(g, t, #[trigger] before[i]);
        assert(shifts(g, t, items[i]));
    }
    if some_finishes(g, t, before) {
        let i = choose|i: int| 0 <= i < before.len() && finishes(g, t, #[trigger] before[i]);
        assert(finishes(g, t, items[i]));
    }
    if some_shifts(g, t, items) {
        let i = choose|i: int| 0 <= i < items.len() && shifts(g, t, #[trigger] items[i]);
        if i < n {
            assert(shifts(g, t, before[i]));
        }
    }
    if some_finishes(g, t, items) {
        let i = choose|i: int| 0 <= i < items.len() && finishes(g, t, #[trigger] items[i]);
        if i < n {
            assert(finishes(g, t, before[i]));
        }
    }
}

/// Where shifting wins against each rule, the cell shifts.
proof fn lemma_cell_all_shift(g: GrammarView, t: usize, shift: int, items: Seq<LR0Item>)
    requires
        0 < shift,
        g.rules.len() <= i32::MAX,
        forall|i: int| 0 <= i < items.len() ==> is_item(g, #[trigger] items[i]),
        forall|i: int| 0 <= i < items.len() ==> !finishes_all(g, t, #[trigger] items[i]),
        forall|i: int|
            0 <= i < items.len() && finishes(g, t, #[trigger] items[i]) ==> resolved(
                g,
                t,
                items[i].rule as int,
                shift,
            ) == shift,
    ensures
        some_shifts(g, t, items) ==> cell(g, t, shift, items).act == Some(shift),
        !some_shifts(g, t, items) ==> (cell(g, t, shift, items).act matches Some(a) ==> reduces(a)
            && resolved(g, t, reduced_rule(a), shift) == shift),
    decreases items.len(),
{
    if items.len() > 0 {
        let before = items.drop_last();
        let n = items.len() - 1;
        assert forall|i: int| 0 <= i < before.len() implies is_item(g, #[trigger] before[i])
            && !finishes_all(g, t, before[i]) && (finishes(g, t, before[i]) ==> resolved(
            g,
            t,
            before[i].rule as int,
            shift,
        ) == shift) by {
            assert(before[i] == items[i]);
        }
        lemma_cell_all_shift(g, t, shift, before);
        lemma_some_step(g, t, items);
        let it = items[n];
        assert(is_item(g, it) && !finishes_all(g, t, it));
        let c = cell(g, t, shift, before);
        assert(cell(g, t, shift, items) == with_item(g, t, shift, it, c));
        assert(reduced_rule(reduce_by(it.rule as int)) == it.rule);
    }
}

/// Where each rule wins against shifting, the cell reduces by the rule with the lowest
/// number.
proof fn lemma_cell_all_reduce(g: GrammarView, t: usize, shift: int, items: Seq<LR0Item>)
    requires
        0 < shift,
        g.rules.len() <= i32::MAX,
        forall|i: int| 0 <= i < items.len() ==> is_item(g, #[trigger] items[i]),
        forall|i: int| 0 <= i < items.len() ==> !finishes_all(g, t, #[trigger] items[i]),
        forall|i: int|
            0 <= i < items.len() && finishes(g, t, #[trigger] items[i]) ==> resolved(
                g,
                t,
                items[i].rule as int,
                shift,
            ) == reduce_by(items[i].rule as int),
    ensures
        ({
            let c = cell(g, t, shift, items);
            &&& some_finishes(g, t, items) ==> c.act is Some && reduces(c.act->0) && resolved(
                g,
                t,
                reduced_rule(c.act->0),
                shift,
            ) == c.act->0 && forall|i: int|
                0 <= i < items.len() && finishes(g, t, #[trigger] items[i]) ==> reduced_rule(
                    c.act->0,
                ) <= items[i].rule
            &&& !some_finishes(g, t, items) ==> c.act is None || c.act == Some(shift)
        }),
    decreases items.len(),
{
    if items.len() > 0 {
        let before = items.drop_last();
        let n = items.len() - 1;
        assert forall|i: int| 0 <= i < before.len() implies is_item(g, #[trigger] before[i])
            && !finishes_all(g, t, before[i]) && (finishes(g, t, before[i]) ==> resolved(
            g,
            t,
            before[i].rule as int,
            shift,
        ) == reduce_by(before[i].rule as int)) by {
            assert(before[i] == items[i]);
        }
        lemma_cell_all_reduce(g, t, shift, before);
        lemma_some_step(g, t, items);
        let it = items[n];
        assert(is_item(g, it) && !finishes_all(g, t, it));
        let c = cell(g, t, shift, before);
        let d = cell(g, t, shift, items);
        assert(d == with_item(g, t, shift, it, c));
        assert(reduced_rule(reduce_by(it.rule as int)) == it.rule);
        if some_finishes(g, t, items) {
            assert forall|i: int| 0 <= i < items.len() && finishes(g, t, #[trigger] items[i]) implies reduced_rule(
            d.act->0) <= items[i].rule by {
                if i < n {
                    assert(before[i] == items[i]);
                    assert(some_finishes(g, t, before));
                }
            }
        }
    }
}

/// Where a state allows to shift and to reduce by some rules, and shifting wins against each
/// of them, the table shifts. Where each of them wins against shifting, it reduces by the one
/// with the lowest number.
pub proof fn lemma_entry_several(g: GrammarView, k: int, t: usize)
    requires
        complete(g),
        has_room(g),
        0 <= k < states_of(g).len(),
        !can_accept(g, k, t),
        can_shift(g, k, t),
    ensures
        ({
            let shift = shift_to(target(g, k, t));
            &&& (forall|r: int| #[trigger]
                can_reduce(g, k, t, r) ==> resolved(g, t, r, shift) == shift) ==> entry(g, k, t)
                == shift
            &&& (forall|r: int| #[trigger]
                can_reduce(g, k, t, r) ==> resolved(g, t, r, shift) == reduce_by(r)) ==> forall|
                r: int,
            | #[trigger]
                can_reduce(g, k, t, r) ==> reduces(entry(g, k, t)) && reduced_rule(entry(g, k, t))
                    <= r
        }),
{
    let items = listed(states_of(g)[k]);
    let s = shift_used(g, k, t);
    lemma_cell_of_state(g, k, t);
    lemma_state_listed(g, k);
    assert(is_symbol(g, t));
    lemma_entry_exists(g, k, t);
    lemma_entry_allowed(g, k, t);
    assert forall|i: int| 0 <= i < items.len() implies !finishes_all(g, t, #[trigger] items[i]) && (
    finishes(g, t, items[i]) ==> can_reduce(g, k, t, items[i].rule as int)) by {
        assert(is_item(g, items[i]) && states_of(g)[k].contains(items[i]));
        if finishes_all(g, t, items[i]) {
            assert(items[i] == done_item(g, 0));
        }
        if finishes(g, t, items[i]) {
            assert(items[i] == done_item(g, items[i].rule as int));
        }
    }
    let it = choose|it: LR0Item| #[trigger] states_of(g)[k].contains(it) && awaits(g, it, t);
    let i = choose|i: int| 0 <= i < items.len() && items[i] == it;
    assert(shifts(g, t, items[i]));
    assert(some_shifts(g, t, items));
    if forall|r: int| #[trigger] can_reduce(g, k, t, r) ==> resolved(g, t, r, s) == s {
        assert forall|j: int| 0 <= j < items.len() && finishes(g, t, #[trigger] items[j]) implies resolved(
        g, t, items[j].rule as int, s) == s by {
            assert(can_reduce(g, k, t, items[j].rule as int));
        }
        lemma_cell_all_shift(g, t, s, items);
    }
    if forall|r: int| #[trigger]
        can_reduce(g, k, t, r) ==> resolved(g, t, r, s) == reduce_by(r) {
        assert forall|j: int| 0 <= j < items.len() && finishes(g, t, #[trigger] items[j]) implies resolved(
        g, t, items[j].rule as int, s) == reduce_by(items[j].rule as int) by {
            assert(can_reduce(g, k, t, items[j].rule as int));
        }
        lemma_cell_all_reduce(g, t, s, items);
        assert forall|r: int| #[trigger] can_reduce(g, k, t, r) implies reduces(entry(g, k, t))
            && reduced_rule(entry(g, k, t)) <= r by {
            lemma_done(g, r);
            let j = choose|j: int| 0 <= j < items.len() && items[j] == done_item(g, r);
            assert(finishes(g, t, items[j]));
        }
    }
}

} // verus!
