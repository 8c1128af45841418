//! The report on a grammar and its automaton.

use crate::automaton::{all_items, is_item, lemma_listed, listed, wf_states, ItemSet, LR0Item};
use crate::grammar::{c_value, is_symbol, wf, wf_rule, Grammar, GrammarView, Rule};
use crate::tables::{shaped, TableGenerator, TableView, ACCEPT_ACTION, ERROR_ACTION};
use crate::text::{
    cat, dec, dec_int, join, lemma_cat_step, lemma_join_step, pad_left, push_i32, push_padded,
    push_usize,
};
use vstd::prelude::*;

verus! {

broadcast use {
    vstd::std_specs::hash::group_hash_axioms,
    vstd::std_specs::btree::group_btree_axioms,
};

// ---------------------------------------------------------------------------
// The text of a report
// ---------------------------------------------------------------------------

/// The names of the symbols.
pub open spec fn names(g: GrammarView, syms: Seq<usize>) -> Seq<Seq<char>> {
    Seq::new(syms.len(), |i: int| g.symbols[syms[i] as int])
}

/// What a line on rule number `i` begins with.
pub open spec fn rule_head(g: GrammarView, i: int) -> Seq<char> {
    "  "@ + pad_left(dec(i as nat), 4) + " "@ + g.symbols[g.rules[i].lhs as int] + ": "@
}

/// The line on rule number `i`.
pub open spec fn rule_text(g: GrammarView, i: int) -> Seq<char> {
    rule_head(g, i) + (if g.rules[i].rhs.len() == 0 {
        "/* empty */"@
    } else {
        join(names(g, g.rules[i].rhs), " "@)
    }) + "\n"@
}

/// The lines on all rules.
pub open spec fn rule_texts(g: GrammarView) -> Seq<Seq<char>> {
    Seq::new(g.rules.len(), |i: int| rule_text(g, i))
}

/// The number `r`, as often as `x` stands among the symbols.
pub open spec fn repeated(syms: Seq<usize>, x: usize, r: int) -> Seq<int>
    decreases syms.len(),
{
    if syms.len() == 0 {
        Seq::empty()
    } else if syms.last() == x {
        repeated(syms.drop_last(), x, r).push(r)
    } else {
        repeated(syms.drop_last(), x, r)
    }
}

/// The numbers below `n` of the rules with `x` on the right, each as often as it stands
/// there.
pub open spec fn on_right(g: GrammarView, x: usize, n: int) -> Seq<int>
    decreases n,
{
    if n <= 0 {
        Seq::empty()
    } else {
        on_right(g, x, n - 1) + repeated(g.rules[n - 1].rhs, x, n - 1)
    }
}

/// The numbers below `n` of the rules with `x` on the left.
pub open spec fn on_left(g: GrammarView, x: usize, n: int) -> Seq<int>
    decreases n,
{
    if n <= 0 {
        Seq::empty()
    } else if g.rules[n - 1].lhs == x {
        on_left(g, x, n - 1).push(n - 1)
    } else {
        on_left(g, x, n - 1)
    }
}

/// The numbers, each after a space.
pub open spec fn spaced(numbers: Seq<int>) -> Seq<char> {
    cat(Seq::new(numbers.len(), |i: int| " "@ + dec(numbers[i] as nat)))
}

/// The line on the terminal `x`, where a rule has it on the right.
pub open spec fn terminal_text(g: GrammarView, x: usize) -> Seq<char> {
    let right = on_right(g, x, g.rules.len() as int);
    if g.terminals.contains(x) && right.len() > 0 {
        "  "@ + g.symbols[x as int] + " ("@ + dec_int(c_value(g, x) as int) + ")"@ + spaced(right)
            + "\n"@
    } else {
        Seq::empty()
    }
}

/// The line on the nonterminal `x`, where a rule has it.
pub open spec fn nonterminal_text(g: GrammarView, x: usize) -> Seq<char> {
    let left = on_left(g, x, g.rules.len() as int);
    let right = on_right(g, x, g.rules.len() as int);
    if g.nonterminals.contains(x) && (left.len() > 0 || right.len() > 0) {
        "  "@ + g.symbols[x as int] + " (on left:"@ + spaced(left) + ", on right:"@ + spaced(right)
            + ")\n"@
    } else {
        Seq::empty()
    }
}

/// The lines on all terminals.
pub open spec fn terminal_texts(g: GrammarView) -> Seq<Seq<char>> {
    Seq::new(g.symbols.len(), |x: int| terminal_text(g, x as usize))
}

/// The lines on all nonterminals.
pub open spec fn nonterminal_texts(g: GrammarView) -> Seq<Seq<char>> {
    Seq::new(g.symbols.len(), |x: int| nonterminal_text(g, x as usize))
}

/// The symbol at `j` in the item's rule, with the mark ahead of it where it stands there,
/// and a space behind it unless it is the last.
pub open spec fn marked_symbol(g: GrammarView, it: LR0Item, j: int) -> Seq<char> {
    let rhs = g.rules[it.rule as int].rhs;
    (if j == it.dot {
        ". "@
    } else {
        Seq::empty()
    }) + g.symbols[rhs[j] as int] + (if j < rhs.len() - 1 {
        " "@
    } else {
        Seq::empty()
    })
}

/// The symbols of the item's rule, with the mark.
pub open spec fn marked_symbols(g: GrammarView, it: LR0Item) -> Seq<Seq<char>> {
    Seq::new(g.rules[it.rule as int].rhs.len(), |j: int| marked_symbol(g, it, j))
}

/// The line on an item.
pub open spec fn item_text(g: GrammarView, it: LR0Item) -> Seq<char> {
    rule_head(g, it.rule as int) + cat(marked_symbols(g, it)) + (if it.dot
        == g.rules[it.rule as int].rhs.len() {
        " .\n"@
    } else {
        "\n"@
    })
}

/// The lines on the items.
pub open spec fn item_texts(g: GrammarView, items: Seq<LR0Item>) -> Seq<Seq<char>> {
    Seq::new(items.len(), |i: int| item_text(g, items[i]))
}

/// What an action does.
pub open spec fn action_name(a: i32) -> Seq<char> {
    if a == ACCEPT_ACTION {
        "  accept\n"@
    } else if a == ERROR_ACTION {
        "  error\n"@
    } else if a > 0 {
        "  shift, and go to state "@ + dec_int(a - 1) + "\n"@
    } else {
        "  reduce using rule "@ + dec_int(-(a + 1)) + "\n"@
    }
}

/// The line on the action on `x`, where there is one.
pub open spec fn action_text(g: GrammarView, row: Map<usize, i32>, x: usize) -> Seq<char> {
    if row.dom().contains(x) {
        "    "@ + g.symbols[x as int] + action_name(row[x])
    } else {
        Seq::empty()
    }
}

/// The line on where to go on `x`, where there is such a place.
pub open spec fn goto_text(g: GrammarView, row: Map<usize, usize>, x: usize) -> Seq<char> {
    if row.dom().contains(x) {
        "    "@ + g.symbols[x as int] + "  go to state "@ + dec(row[x] as nat) + "\n"@
    } else {
        Seq::empty()
    }
}

/// The lines on the actions, in the order of the symbols.
pub open spec fn action_texts(g: GrammarView, row: Map<usize, i32>) -> Seq<Seq<char>> {
    Seq::new(g.symbols.len(), |x: int| action_text(g, row, x as usize))
}

/// The lines on where to go, in the order of the symbols.
pub open spec fn goto_texts(g: GrammarView, row: Map<usize, usize>) -> Seq<Seq<char>> {
    Seq::new(g.symbols.len(), |x: int| goto_text(g, row, x as usize))
}

/// The part on state number `k`.
pub open spec fn state_text(g: GrammarView, v: TableView, k: int) -> Seq<char> {
    "\nState "@ + dec(k as nat) + "\n\n"@ + cat(item_texts(g, listed(v.states[k]))) + "\n"@ + cat(
        action_texts(g, v.actions[k]),
    ) + cat(goto_texts(g, v.gotos[k]))
}

/// The parts on all states.
pub open spec fn state_texts(g: GrammarView, v: TableView) -> Seq<Seq<char>> {
    Seq::new(v.states.len(), |k: int| state_text(g, v, k))
}

/// The report on the grammar and its tables.
pub open spec fn report_text(g: GrammarView, v: TableView) -> Seq<char> {
    "Grammar\n\n"@ + cat(rule_texts(g)) + "\nTerminals, with rules where they appear\n\n"@ + cat(
        terminal_texts(g),
    ) + "\nNonterminals, with rules where they appear\n\n"@ + cat(nonterminal_texts(g)) + "\n"@
        + cat(state_texts(g, v))
}

// ---------------------------------------------------------------------------
// Writing a report
// ---------------------------------------------------------------------------

/// The models of a list of numbers.
pub open spec fn ints(v: Seq<usize>) -> Seq<int> {
    v.map_values(|n: usize| n as int)
}

/// Appends what a line on rule number `i` begins with.
fn push_rule_head(out: &mut String, g: &Grammar, i: usize)
    requires
        wf(g@),
        i < g.rules@.len(),
    ensures
        final(out)@ == old(out)@ + rule_head(g@, i as int),
{
    proof {
        assert(g@.rules[i as int] == g.rules@[i as int]@);
        assert(wf_rule(g@, g@.rules[i as int]));
    }
    let mut t: String = "  ".to_owned();
    push_padded(&mut t, i);
    t.append(" ");
    t.append(g.symbol_name(g.rules[i].lhs));
    t.append(": ");
    out.append(t.as_str());
}

/// Appends the line on rule number `i`.
fn push_rule(out: &mut String, g: &Grammar, i: usize)
    requires
        wf(g@),
        i < g.rules@.len(),
    ensures
        final(out)@ == old(out)@ + rule_text(g@, i as int),
{
    proof {
        assert(g@.rules[i as int] == g.rules@[i as int]@);
        assert(wf_rule(g@, g@.rules[i as int]));
    }
    let rule: &Rule = &g.rules[i];
    let ghost all = names(g@, rule@.rhs);
    let mut list: String = String::new();
    let mut j: usize = 0;
    proof {
        assert(join(all.take(0), " "@) =~= list@);
    }
    while j < rule.rhs.len()
        invariant
            j <= rule.rhs@.len(),
            wf_rule(g@, rule@),
            all == names(g@, rule@.rhs),
            list@ == join(all.take(j as int), " "@),
        decreases rule.rhs@.len() - j,
    {
        proof {
            lemma_join_step(all, " "@, j as int);
            assert(is_symbol(g@, rule@.rhs[j as int]));
        }
        if j > 0 {
            list.append(" ");
            list.append(g.symbol_name(rule.rhs[j]));
        } else {
            list = g.symbol_name(rule.rhs[j]).to_owned();
        }
        j += 1;
    }
    proof {
        assert(all.take(j as int) =~= all);
    }
    let mut t: String = String::new();
    push_rule_head(&mut t, g, i);
    proof {
        assert(t@ =~= rule_head(g@, i as int));
    }
    if rule.rhs.len() == 0 {
        t.append("/* empty */");
    } else {
        t.append(list.as_str());
    }
    t.append("\n");
    out.append(t.as_str());
}

/// The numbers of the rules with `x` on the right.
fn rules_on_right(g: &Grammar, x: usize) -> (r: Vec<usize>)
    ensures
        ints(r@) == on_right(g@, x, g@.rules.len() as int),
{
    let mut r: Vec<usize> = Vec::new();
    let mut i: usize = 0;
    proof {
        assert(ints(r@) =~= on_right(g@, x, 0));
    }
    while i < g.rules.len()
        invariant
            i <= g.rules@.len(),
            ints(r@) == on_right(g@, x, i as int),
        decreases g.rules@.len() - i,
    {
        proof {
            assert(g@.rules[i as int] == g.rules@[i as int]@);
        }
        let rule: &Rule = &g.rules[i];
        let ghost before = ints(r@);
        let ghost rhs = rule.rhs@;
        let mut j: usize = 0;
        proof {
            assert(before + repeated(rhs.take(0), x, i as int) =~= before);
        }
        while j < rule.rhs.len()
            invariant
                j <= rule.rhs@.len(),
                rhs == rule.rhs@,
                ints(r@) == before + repeated(rhs.take(j as int), x, i as int),
            decreases rule.rhs@.len() - j,
        {
            proof {
                assert(rhs.take(j + 1).drop_last() =~= rhs.take(j as int));
            }
            if rule.rhs[j] == x {
                let ghost was = r@;
                r.push(i);
                proof {
                    let n = repeated(rhs.take(j as int), x, i as int);
                    assert(ints(r@) =~= ints(was).push(i as int));
                    assert((before + n).push(i as int) =~= before + n.push(i as int));
                }
            }
            j += 1;
        }
        proof {
            assert(rhs.take(j as int) =~= rhs);
        }
        i += 1;
    }
    r
}

/// The numbers of the rules with `x` on the left.
fn rules_on_left(g: &Grammar, x: usize) -> (r: Vec<usize>)
    ensures
        ints(r@) == on_left(g@, x, g@.rules.len() as int),
{
    let mut r: Vec<usize> = Vec::new();
    let mut i: usize = 0;
    proof {
        assert(ints(r@) =~= on_left(g@, x, 0));
    }
    while i < g.rules.len()
        invariant
            i <= g.rules@.len(),
            ints(r@) == on_left(g@, x, i as int),
        decreases g.rules@.len() - i,
    {
        proof {
            assert(g@.rules[i as int] == g.rules@[i as int]@);
        }
        if g.rules[i].lhs == x {
            let ghost was = r@;
            r.push(i);
            proof {
                assert(ints(r@) =~= ints(was).push(i as int));
            }
        }
        i += 1;
    }
    r
}

/// Appends the numbers, each after a space.
fn push_spaced(out: &mut String, numbers: &Vec<usize>)
    ensures
        final(out)@ == old(out)@ + spaced(ints(numbers@)),
{
    let ghost n = ints(numbers@);
    let ghost all = Seq::new(n.len(), |i: int| " "@ + dec(n[i] as nat));
    let mut t: String = String::new();
    let mut i: usize = 0;
    proof {
        assert(cat(all.take(0)) =~= t@);
    }
    while i < numbers.len()
        invariant
            i <= numbers@.len(),
            n == ints(numbers@),
            all == Seq::new(n.len(), |i: int| " "@ + dec(n[i] as nat)),
            t@ == cat(all.take(i as int)),
        decreases numbers@.len() - i,
    {
        let mut u: String = " ".to_owned();
        push_usize(&mut u, numbers[i]);
        t.append(u.as_str());
        proof {
            lemma_cat_step(all, i as int);
        }
        i += 1;
    }
    proof {
        assert(all.take(i as int) =~= all);
    }
    out.append(t.as_str());
}

/// Appends the line on the symbol as a terminal.
fn push_terminal(out: &mut String, g: &Grammar, x: usize)
    requires
        is_symbol(g@, x),
    ensures
        final(out)@ == old(out)@ + terminal_text(g@, x),
{
    let ghost before = out@;
    proof {
        assert(before + Seq::<char>::empty() =~= before);
    }
    if !g.is_terminal(x) {
        return;
    }
    let right: Vec<usize> = rules_on_right(g, x);
    if right.len() == 0 {
        return;
    }
    let mut t: String = "  ".to_owned();
    t.append(g.symbol_name(x));
    t.append(" (");
    push_i32(&mut t, g.token_c_value(x));
    t.append(")");
    push_spaced(&mut t, &right);
    t.append("\n");
    out.append(t.as_str());
}

/// Appends the line on the symbol as a nonterminal.
fn push_nonterminal(out: &mut String, g: &Grammar, x: usize)
    requires
        is_symbol(g@, x),
    ensures
        final(out)@ == old(out)@ + nonterminal_text(g@, x),
{
    let ghost before = out@;
    proof {
        assert(before + Seq::<char>::empty() =~= before);
    }
    if !g.is_nonterminal(x) {
        return;
    }
    let left: Vec<usize> = rules_on_left(g, x);
    let right: Vec<usize> = rules_on_right(g, x);
    if left.len() == 0 && right.len() == 0 {
        return;
    }
    let mut t: String = "  ".to_owned();
    t.append(g.symbol_name(x));
    t.append(" (on left:");
    push_spaced(&mut t, &left);
    t.append(", on right:");
    push_spaced(&mut t, &right);
    t.append(")\n");
    out.append(t.as_str());
}

/// Appends the line on an item.
fn push_item(out: &mut String, g: &Grammar, item: LR0Item)
    requires
        wf(g@),
        is_item(g@, item),
    ensures
        final(out)@ == old(out)@ + item_text(g@, item),
{
    proof {
        assert(g@.rules[item.rule as int] == g.rules@[item.rule as int]@);
        assert(wf_rule(g@, g@.rules[item.rule as int]));
    }
    let rule: &Rule = &g.rules[item.rule];
    let ghost all = marked_symbols(g@, item);
    let mut list: String = String::new();
    let mut j: usize = 0;
    proof {
        assert(cat(all.take(0)) =~= list@);
    }
    while j < rule.rhs.len()
        invariant
            j <= rule.rhs@.len(),
            g@.rules[item.rule as int] == rule@,
            wf_rule(g@, rule@),
            all == marked_symbols(g@, item),
            list@ == cat(all.take(j as int)),
        decreases rule.rhs@.len() - j,
    {
        proof {
            lemma_cat_step(all, j as int);
            assert(is_symbol(g@, rule@.rhs[j as int]));
        }
        let mut t: String = String::new();
        if j == item.dot {
            t = ". ".to_owned();
        }
        t.append(g.symbol_name(rule.rhs[j]));
        if j < rule.rhs.len() - 1 {
            t.append(" ");
        }
        list.append(t.as_str());
        proof {
            assert(t@ =~= marked_symbol(g@, item, j as int));
        }
        j += 1;
    }
    proof {
        assert(all.take(j as int) =~= all);
    }
    let mut t: String = String::new();
    push_rule_head(&mut t, g, item.rule);
    proof {
        assert(t@ =~= rule_head(g@, item.rule as int));
    }
    t.append(list.as_str());
    if item.dot == rule.rhs.len() {
        t.append(" .\n");
    } else {
        t.append("\n");
    }
    out.append(t.as_str());
}

/// Appends what an action does.
fn push_action_name(out: &mut String, a: i32)
    ensures
        final(out)@ == old(out)@ + action_name(a),
{
    if a == ACCEPT_ACTION {
        out.append("  accept\n");
    } else if a == ERROR_ACTION {
        out.append("  error\n");
    } else if a > 0 {
        let mut t: String = "  shift, and go to state ".to_owned();
        push_i32(&mut t, a - 1);
        t.append("\n");
        out.append(t.as_str());
    } else {
        let mut t: String = "  reduce using rule ".to_owned();
        push_i32(&mut t, -(a + 1));
        t.append("\n");
        out.append(t.as_str());
    }
}

/// The lines on the items.
fn items_part(g: &Grammar, items: &ItemSet) -> (t: String)
    requires
        wf(g@),
        all_items(g@, items@),
    ensures
        t@ == cat(item_texts(g@, items.items@)),
{
    let ghost all = item_texts(g@, items.items@);
    let mut t: String = String::new();
    let mut i: usize = 0;
    proof {
        assert(cat(all.take(0)) =~= t@);
    }
    while i < items.items.len()
        invariant
            i <= items.items@.len(),
            wf(g@),
            all_items(g@, items@),
            all == item_texts(g@, items.items@),
            t@ == cat(all.take(i as int)),
        decreases items.items@.len() - i,
    {
        proof {
            lemma_cat_step(all, i as int);
            assert(items@.contains(items.items@[i as int]));
        }
        push_item(&mut t, g, items.items[i]);
        i += 1;
    }
    proof {
        assert(all.take(i as int) =~= all);
    }
    t
}

/// The lines on the actions of state number `k`.
fn actions_part(g: &Grammar, table: &TableGenerator, k: usize) -> (t: String)
    requires
        k < table.action_table@.len(),
    ensures
        t@ == cat(action_texts(g@, table@.actions[k as int])),
{
    let ghost row = table@.actions[k as int];
    let ghost all = action_texts(g@, row);
    proof {
        assert(row == table.action_table@[k as int]@);
    }
    let n: usize = g.symbols.len();
    let mut t: String = String::new();
    let mut x: usize = 0;
    proof {
        assert(cat(all.take(0)) =~= t@);
    }
    while x < n
        invariant
            x <= n,
            n == g@.symbols.len(),
            k < table.action_table@.len(),
            row == table.action_table@[k as int]@,
            all == action_texts(g@, row),
            t@ == cat(all.take(x as int)),
        decreases n - x,
    {
        proof {
            lemma_cat_step(all, x as int);
        }
        let ghost before = t@;
        match table.action_table[k].get(&x) {
            Some(a) => {
                let mut u: String = "    ".to_owned();
                u.append(g.symbol_name(x));
                push_action_name(&mut u, *a);
                t.append(u.as_str());
            },
            None => {
                proof {
                    assert(before + Seq::<char>::empty() =~= before);
                }
            },
        }
        x += 1;
    }
    proof {
        assert(all.take(x as int) =~= all);
    }
    t
}

/// The lines on where to go from state number `k`.
fn gotos_part(g: &Grammar, table: &TableGenerator, k: usize) -> (t: String)
    requires
        k < table.goto_table@.len(),
    ensures
        t@ == cat(goto_texts(g@, table@.gotos[k as int])),
{
    let ghost row = table@.gotos[k as int];
    let ghost all = goto_texts(g@, row);
    proof {
        assert(row == table.goto_table@[k as int]@);
    }
    let n: usize = g.symbols.len();
    let mut t: String = String::new();
    let mut x: usize = 0;
    proof {
        assert(cat(all.take(0)) =~= t@);
    }
    while x < n
        invariant
            x <= n,
            n == g@.symbols.len(),
            k < table.goto_table@.len(),
            row == table.goto_table@[k as int]@,
            all == goto_texts(g@, row),
            t@ == cat(all.take(x as int)),
        decreases n - x,
    {
        proof {
            lemma_cat_step(all, x as int);
        }
        let ghost before = t@;
        match table.goto_table[k].get(&x) {
            Some(to) => {
                let mut u: String = "    ".to_owned();
                u.append(g.symbol_name(x));
                u.append("  go to state ");
                push_usize(&mut u, *to);
                u.append("\n");
                t.append(u.as_str());
            },
            None => {
                proof {
                    assert(before + Seq::<char>::empty() =~= before);
                }
            },
        }
        x += 1;
    }
    proof {
        assert(all.take(x as int) =~= all);
    }
    t
}

/// Appends the part on state number `k`.
fn push_state(out: &mut String, g: &Grammar, table: &TableGenerator, k: usize)
    requires
        wf(g@),
        shaped(g@, table@),
        wf_states(g@, table.states@),
        k < table.states@.len(),
    ensures
        final(out)@ == old(out)@ + state_text(g@, table@, k as int),
{
    proof {
        assert(table@.states.len() == table.states@.len());
        assert(table@.actions.len() == table.action_table@.len());
        assert(table@.gotos.len() == table.goto_table@.len());
        assert(table@.states[k as int] == table.states@[k as int]@);
        lemma_listed(table.states@[k as int].items@);
    }
    let items: String = items_part(g, &table.states[k]);
    let actions: String = actions_part(g, table, k);
    let gotos: String = gotos_part(g, table, k);
    let mut t: String = "\nState ".to_owned();
    push_usize(&mut t, k);
    t.append("\n\n");
    t.append(items.as_str());
    t.append("\n");
    t.append(actions.as_str());
    t.append(gotos.as_str());
    out.append(t.as_str());
}

/// The report on the grammar and its tables.
pub fn generate_verbose_output(grammar: &Grammar, table: &TableGenerator) -> (out: String)
    requires
        wf(grammar@),
        shaped(grammar@, table@),
        wf_states(grammar@, table.states@),
    ensures
        out@ == report_text(grammar@, table@),
{
    let ghost g = grammar@;
    let ghost v = table@;
    let ghost all_rules = rule_texts(g);
    let ghost all_terminals = terminal_texts(g);
    let ghost all_nonterminals = nonterminal_texts(g);
    let ghost all_states = state_texts(g, v);
    let mut rules: String = String::new();
    let mut i: usize = 0;
    proof {
        assert(cat(all_rules.take(0)) =~= rules@);
    }
    while i < grammar.rules.len()
        invariant
            i <= grammar.rules@.len(),
            g == grammar@,
            wf(g),
            all_rules == rule_texts(g),
            rules@ == cat(all_rules.take(i as int)),
        decreases grammar.rules@.len() - i,
    {
        proof {
            lemma_cat_step(all_rules, i as int);
        }
        push_rule(&mut rules, grammar, i);
        i += 1;
    }
    let mut terminals: String = String::new();
    let mut nonterminals: String = String::new();
    let mut x: usize = 0;
    proof {
        assert(all_rules.take(i as int) =~= all_rules);
        assert(cat(all_terminals.take(0)) =~= terminals@);
        assert(cat(all_nonterminals.take(0)) =~= nonterminals@);
    }
    while x < grammar.symbols.len()
        invariant
            x <= grammar.symbols@.len(),
            g == grammar@,
            all_terminals == terminal_texts(g),
            all_nonterminals == nonterminal_texts(g),
            terminals@ == cat(all_terminals.take(x as int)),
            nonterminals@ == cat(all_nonterminals.take(x as int)),
        decreases grammar.symbols@.len() - x,
    {
        proof {
            lemma_cat_step(all_terminals, x as int);
            lemma_cat_step(all_nonterminals, x as int);
        }
        push_terminal(&mut terminals, grammar, x);
        push_nonterminal(&mut nonterminals, grammar, x);
        x += 1;
    }
    let mut states: String = String::new();
    let mut k: usize = 0;
    proof {
        assert(all_terminals.take(x as int) =~= all_terminals);
        assert(all_nonterminals.take(x as int) =~= all_nonterminals);
        assert(cat(all_states.take(0)) =~= states@);
        assert(v.states.len() == table.states@.len());
    }
    while k < table.states.len()
        invariant
            k <= table.states@.len(),
            g == grammar@,
            v == table@,
            wf(g),
            shaped(g, v),
            wf_states(g, table.states@),
            v.states.len() == table.states@.len(),
            all_states == state_texts(g, v),
            states@ == cat(all_states.take(k as int)),
        decreases table.states@.len() - k,
    {
        proof {
            lemma_cat_step(all_states, k as int);
        }
        push_state(&mut states, grammar, table, k);
        k += 1;
    }
    proof {
        assert(all_states.take(k as int) =~= all_states);
    }
    let mut out: String = "Grammar\n\n".to_owned();
    out.append(rules.as_str());
    out.append("\nTerminals, with rules where they appear\n\n");
    out.append(terminals.as_str());
    out.append("\nNonterminals, with rules where they appear\n\n");
    out.append(nonterminals.as_str());
    out.append("\n");
    out.append(states.as_str());
    out
}

} // verus!
