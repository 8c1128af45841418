//! The tables of a grammar: what to do in each state on each terminal, and where to go
//! from each state on each nonterminal.

use crate::automaton::{
    all_items, awaits, closure, closure_of, expects, expects_symbol, find_states, goto, goto_of,
    is_item, item_sets, lemma_listed, lemma_states, listed, position, states_of, wf_states, ItemSet,
    LR0Item,
};
use crate::grammar::{
    complete, is_symbol, prec_of, wf, wf_rule, Assoc, Grammar, GrammarView, Rule, EOF_TOKEN,
};
use crate::sets::{
    bounded, first, first_of, first_of_symbols, first_table, follow, follow_table, relation,
    set_views, Relation,
};
use std::collections::{BTreeSet, HashMap};
use vstd::prelude::*;

verus! {

broadcast use {
    vstd::std_specs::hash::group_hash_axioms,
    vstd::std_specs::btree::group_btree_axioms,
};

/// The action that accepts the input.
pub const ACCEPT_ACTION: i32 = 0;

/// The action that refuses the input.
pub const ERROR_ACTION: i32 = i32::MIN;

// ---------------------------------------------------------------------------
// Actions
// ---------------------------------------------------------------------------

/// The action that reduces by rule number `r`.
pub open spec fn reduce_by(r: int) -> int {
    -r - 1
}

/// The action that shifts and goes to state number `k`.
pub open spec fn shift_to(k: int) -> int {
    k + 1
}

/// Whether the action reduces.
pub open spec fn reduces(a: int) -> bool {
    a < 0 && a != ERROR_ACTION
}

/// The rule by which the action reduces.
pub open spec fn reduced_rule(a: int) -> int {
    -a - 1
}

/// The precedence of a token; zero where it has none.
pub open spec fn token_prec(g: GrammarView, t: usize) -> i32 {
    if g.tokens.dom().contains(t) {
        g.tokens[t].prec
    } else {
        0
    }
}

/// Whether precedence and associativity settle a conflict between shifting `t` and
/// reducing by rule number `r`.
pub open spec fn settled(g: GrammarView, t: usize, r: int) -> bool {
    let (prec, assoc) = prec_of(g, g.rules[r]);
    prec > 0 && token_prec(g, t) > 0 && (prec != token_prec(g, t) || assoc != Assoc::Unset)
}

/// What is done where both the action `shift` on `t` and reducing by rule number `r` are
/// possible. The one of higher precedence wins; where they are equal, associativity to
/// the left reduces, to the right shifts, and with none the input is refused. What is not
/// settled shifts.
pub open spec fn resolved(g: GrammarView, t: usize, r: int, shift: int) -> int {
    let (prec, assoc) = prec_of(g, g.rules[r]);
    if !settled(g, t, r) || token_prec(g, t) > prec {
        shift
    } else if prec > token_prec(g, t) {
        reduce_by(r)
    } else {
        match assoc {
            Assoc::Left => reduce_by(r),
            Assoc::NonAssoc => ERROR_ACTION as int,
            _ => shift,
        }
    }
}

/// What is found for one state and one terminal: the action, and how many conflicts
/// between shifting and reducing and between two rules were not settled.
pub struct Cell {
    pub act: Option<int>,
    pub sr: nat,
    pub rr: nat,
}

/// The cell with one more item that shifts.
pub open spec fn with_shift(g: GrammarView, t: usize, shift: int, c: Cell) -> Cell {
    match c.act {
        None => Cell { act: Some(shift), ..c },
        Some(a) => if reduces(a) {
            Cell {
                act: Some(resolved(g, t, reduced_rule(a), shift)),
                sr: c.sr + if settled(g, t, reduced_rule(a)) { 0nat } else { 1 },
                rr: c.rr,
            }
        } else {
            c
        },
    }
}

/// The cell with one more item that reduces by rule number `r`. Of two rules the one with
/// the lower number wins.
pub open spec fn with_reduce(g: GrammarView, t: usize, r: int, c: Cell) -> Cell {
    match c.act {
        None => Cell { act: Some(reduce_by(r)), ..c },
        Some(a) => if a > 0 {
            Cell {
                act: Some(resolved(g, t, r, a)),
                sr: c.sr + if settled(g, t, r) { 0nat } else { 1 },
                rr: c.rr,
            }
        } else if reduces(a) {
            Cell {
                act: Some(if r < reduced_rule(a) { reduce_by(r) } else { a }),
                sr: c.sr,
                rr: c.rr + 1,
            }
        } else {
            c
        },
    }
}

/// FOLLOW of the grammar.
pub open spec fn follow_of(g: GrammarView) -> Relation {
    follow(g, first(g))
}

/// The cell for `t` with what the item says of it. An item that awaits the terminal
/// shifts; a rule that is complete reduces on what may follow its left-hand side, and
/// rule number zero accepts at the end of the input.
pub open spec fn with_item(g: GrammarView, t: usize, shift: int, it: LR0Item, c: Cell) -> Cell {
    let rule = g.rules[it.rule as int];
    if it.dot < rule.rhs.len() {
        if rule.rhs[it.dot as int] == t && g.terminals.contains(t) {
            with_shift(g, t, shift, c)
        } else {
            c
        }
    } else if it.rule == 0 {
        if t == EOF_TOKEN {
            Cell { act: Some(ACCEPT_ACTION as int), ..c }
        } else {
            c
        }
    } else if follow_of(g).contains((rule.lhs, t)) {
        with_reduce(g, t, it.rule as int, c)
    } else {
        c
    }
}

/// The cell for `t` that the items give, one after the other.
pub open spec fn cell(g: GrammarView, t: usize, shift: int, items: Seq<LR0Item>) -> Cell
    decreases items.len(),
{
    if items.len() == 0 {
        Cell { act: None, sr: 0, rr: 0 }
    } else {
        with_item(g, t, shift, items.last(), cell(g, t, shift, items.drop_last()))
    }
}

/// The number of the state that is reached from state number `k` by `x`.
pub open spec fn target(g: GrammarView, k: int, x: usize) -> int {
    states_of(g).index_of(goto(g, states_of(g)[k], x))
}

/// The cell of state number `k` and `t`.
pub open spec fn cell_at(g: GrammarView, k: int, t: usize) -> Cell {
    cell(g, t, shift_to(target(g, k, t)), listed(states_of(g)[k]))
}

/// The actions in state number `k`.
pub open spec fn action_row(g: GrammarView, k: int) -> Map<usize, i32> {
    Map::new(
        |t: usize| is_symbol(g, t) && cell_at(g, k, t).act is Some,
        |t: usize| (cell_at(g, k, t).act->0) as i32,
    )
}

/// Where to go from state number `k`.
pub open spec fn goto_row(g: GrammarView, k: int) -> Map<usize, usize> {
    Map::new(
        |x: usize| g.nonterminals.contains(x) && expects(g, states_of(g)[k], x),
        |x: usize| target(g, k, x) as usize,
    )
}

/// How many conflicts there are in state number `k` on the symbols below `x`: between
/// shifting and reducing, and between two rules.
pub open spec fn row_conflicts(g: GrammarView, k: int, x: int) -> (nat, nat)
    decreases x,
{
    if x <= 0 {
        (0, 0)
    } else {
        let c = cell_at(g, k, (x - 1) as usize);
        let before = row_conflicts(g, k, x - 1);
        (before.0 + c.sr, before.1 + c.rr)
    }
}

/// How many conflicts there are in the states with a number below `k`.
pub open spec fn conflicts(g: GrammarView, k: int) -> (nat, nat)
    decreases k,
{
    if k <= 0 {
        (0, 0)
    } else {
        let row = row_conflicts(g, k - 1, g.symbols.len() as int);
        let before = conflicts(g, k - 1);
        (before.0 + row.0, before.1 + row.1)
    }
}

/// The model of a [`TableGenerator`].
#[verifier::ext_equal]
pub struct TableView {
    pub first: Relation,
    pub follow: Relation,
    pub states: Seq<Set<LR0Item>>,
    pub actions: Seq<Map<usize, i32>>,
    pub gotos: Seq<Map<usize, usize>>,
    pub sr_conflicts: int,
    pub rr_conflicts: int,
}

/// The tables of a grammar.
pub open spec fn tables(g: GrammarView) -> TableView {
    TableView {
        first: first(g),
        follow: follow_of(g),
        states: states_of(g),
        actions: Seq::new(states_of(g).len(), |k: int| action_row(g, k)),
        gotos: Seq::new(states_of(g).len(), |k: int| goto_row(g, k)),
        sr_conflicts: conflicts(g, states_of(g).len() as int).0 as int,
        rr_conflicts: conflicts(g, states_of(g).len() as int).1 as int,
    }
}

/// Whether the numbers in the tables of the grammar have room in 32 bits with a sign: the
/// rules, the states and the conflicts.
pub open spec fn has_room(g: GrammarView) -> bool {
    &&& g.rules.len() <= i32::MAX
    &&& states_of(g).len() <= i32::MAX
    &&& conflicts(g, states_of(g).len() as int).0 <= i32::MAX
    &&& conflicts(g, states_of(g).len() as int).1 <= i32::MAX
}

/// Whether each state has its rows, and the rows speak of symbols.
pub open spec fn shaped(g: GrammarView, v: TableView) -> bool {
    &&& v.actions.len() == v.states.len()
    &&& v.gotos.len() == v.states.len()
    &&& forall|k: int, t: usize|
        0 <= k < v.actions.len() && #[trigger] v.actions[k].dom().contains(t) ==> is_symbol(g, t)
    &&& forall|k: int, x: usize|
        0 <= k < v.gotos.len() && #[trigger] v.gotos[k].dom().contains(x) ==> is_symbol(g, x)
}

/// The tables of a grammar have a row for each state.
pub proof fn lemma_tables_shaped(g: GrammarView)
    requires
        wf(g),
    ensures
        shaped(g, tables(g)),
{
    let v = tables(g);
    assert forall|k: int, t: usize|
        0 <= k < v.actions.len() && #[trigger] v.actions[k].dom().contains(t) implies is_symbol(
        g,
        t,
    ) by {
        assert(v.actions[k] == action_row(g, k));
    }
    assert forall|k: int, x: usize|
        0 <= k < v.gotos.len() && #[trigger] v.gotos[k].dom().contains(x) implies is_symbol(
        g,
        x,
    ) by {
        assert(v.gotos[k] == goto_row(g, k));
        assert(g.nonterminals.contains(x));
    }
}

/// What is reached from a state by a symbol that the state expects is a state, and its
/// number is the target.
pub proof fn lemma_targets(g: GrammarView)
    requires
        wf(g),
        g.rules.len() >= 1,
    ensures
        forall|k: int, x: usize|
            0 <= k < states_of(g).len() && #[trigger] expects(g, states_of(g)[k], x) ==> 0
                <= target(g, k, x) < states_of(g).len() && states_of(g)[target(g, k, x)] == goto(
                g,
                states_of(g)[k],
                x,
            ),
{
    lemma_states(g);
    let s = states_of(g);
    assert forall|k: int, x: usize|
        0 <= k < s.len() && #[trigger] expects(g, s[k], x) implies 0 <= target(g, k, x) < s.len()
        && s[target(g, k, x)] == goto(g, s[k], x) by {
        assert(s.contains(goto(g, s[k], x)));
    }
}

// ---------------------------------------------------------------------------
// Counts grow
// ---------------------------------------------------------------------------

proof fn lemma_cell_grows(g: GrammarView, t: usize, shift: int, items: Seq<LR0Item>, n: int)
    requires
        0 <= n <= items.len(),
    ensures
        cell(g, t, shift, items.take(n)).sr <= cell(g, t, shift, items).sr,
        cell(g, t, shift, items.take(n)).rr <= cell(g, t, shift, items).rr,
    decreases items.len(),
{
    if n == items.len() {
        assert(items.take(n) =~= items);
    } else {
        let rest = items.drop_last();
        assert(rest.take(n) =~= items.take(n));
        lemma_cell_grows(g, t, shift, rest, n);
    }
}

proof fn lemma_row_grows(g: GrammarView, k: int, x: int, y: int)
    requires
        x <= y,
    ensures
        row_conflicts(g, k, x).0 <= row_conflicts(g, k, y).0,
        row_conflicts(g, k, x).1 <= row_conflicts(g, k, y).1,
    decreases y - x,
{
    if x < y {
        lemma_row_grows(g, k, x, y - 1);
    }
}

proof fn lemma_conflicts_grow(g: GrammarView, j: int, k: int)
    requires
        j <= k,
    ensures
        conflicts(g, j).0 <= conflicts(g, k).0,
        conflicts(g, j).1 <= conflicts(g, k).1,
    decreases k - j,
{
    if j < k {
        lemma_conflicts_grow(g, j, k - 1);
    }
}

/// Where no item awaits the terminal, it does not matter what shifting it would be.
pub proof fn lemma_cell_without_shift(
    g: GrammarView,
    t: usize,
    shift: int,
    other: int,
    items: Seq<LR0Item>,
)
    requires
        forall|i: int| 0 <= i < items.len() ==> !awaits(g, #[trigger] items[i], t),
    ensures
        cell(g, t, shift, items) == cell(g, t, other, items),
    decreases items.len(),
{
    if items.len() > 0 {
        let rest = items.drop_last();
        assert forall|i: int| 0 <= i < rest.len() implies !awaits(g, #[trigger] rest[i], t) by {
            assert(rest[i] == items[i]);
        }
        lemma_cell_without_shift(g, t, shift, other, rest);
        assert(!awaits(g, items[items.len() - 1], t));
    }
}

// ---------------------------------------------------------------------------
// Building the tables
// ---------------------------------------------------------------------------

/// The tables of a grammar as they are built. A symbol's sets stand at its index.
#[derive(Debug)]
pub struct TableGenerator<'a> {
    pub grammar: &'a Grammar,
    pub first_sets: Vec<BTreeSet<usize>>,
    pub follow_sets: Vec<BTreeSet<usize>>,
    pub states: Vec<ItemSet>,
    pub action_table: Vec<HashMap<usize, i32>>,
    pub goto_table: Vec<HashMap<usize, usize>>,
    pub sr_conflicts: i32,
    pub rr_conflicts: i32,
}

impl<'a> View for TableGenerator<'a> {
    type V = TableView;

    open spec fn view(&self) -> TableView {
        TableView {
            first: relation(set_views(self.first_sets@)),
            follow: relation(set_views(self.follow_sets@)),
            states: item_sets(self.states@),
            actions: self.action_table@.map_values(|m: HashMap<usize, i32>| m@),
            gotos: self.goto_table@.map_values(|m: HashMap<usize, usize>| m@),
            sr_conflicts: self.sr_conflicts as int,
            rr_conflicts: self.rr_conflicts as int,
        }
    }
}

/// The action of a cell.
pub open spec fn is_act(act: Option<i32>, c: Option<int>) -> bool {
    match act {
        Some(a) => c == Some(a as int),
        None => c is None,
    }
}

/// Whether the action names a rule of the grammar where it reduces.
pub open spec fn names_rule(g: GrammarView, act: Option<i32>) -> bool {
    act matches Some(a) ==> reduces(a as int) ==> reduced_rule(a as int) < g.rules.len()
}

impl<'a> TableGenerator<'a> {
    /// Whether the FIRST sets are there.
    pub open spec fn has_first(&self) -> bool {
        &&& self.first_sets@.len() == self.grammar@.symbols.len()
        &&& bounded(set_views(self.first_sets@), self.first_sets@.len())
        &&& self@.first == first(self.grammar@)
    }

    /// Whether the FOLLOW sets are there.
    pub open spec fn has_follow(&self) -> bool {
        &&& self.follow_sets@.len() == self.grammar@.symbols.len()
        &&& self@.follow == follow_of(self.grammar@)
    }

    /// Whether the states are there.
    pub open spec fn has_states(&self) -> bool {
        &&& wf_states(self.grammar@, self.states@)
        &&& self@.states == states_of(self.grammar@)
    }

    /// Whether all tables of the grammar are there.
    pub open spec fn ready(&self) -> bool {
        &&& complete(self.grammar@)
        &&& has_room(self.grammar@)
        &&& wf_states(self.grammar@, self.states@)
        &&& shaped(self.grammar@, self@)
        &&& self@ == tables(self.grammar@)
    }

    /// Whether nothing stands in the tables yet.
    pub open spec fn is_fresh(&self) -> bool {
        &&& self.first_sets@.len() == 0
        &&& self.follow_sets@.len() == 0
        &&& self.states@.len() == 0
        &&& self.sr_conflicts == 0
        &&& self.rr_conflicts == 0
    }

    /// Tables for the grammar in which nothing stands yet.
    pub fn new(grammar: &'a Grammar) -> (t: TableGenerator<'a>)
        ensures
            t.grammar == grammar,
            t.is_fresh(),
            t@ == (TableView {
                first: Set::empty(),
                follow: Set::empty(),
                states: Seq::empty(),
                actions: Seq::empty(),
                gotos: Seq::empty(),
                sr_conflicts: 0,
                rr_conflicts: 0,
            }),
    {
        TableGenerator {
            grammar,
            first_sets: Vec::new(),
            follow_sets: Vec::new(),
            states: Vec::new(),
            action_table: Vec::new(),
            goto_table: Vec::new(),
            sr_conflicts: 0,
            rr_conflicts: 0,
        }
    }

    /// Computes the FIRST sets.
    pub fn compute_first_sets(&mut self)
        requires
            wf(old(self).grammar@),
            old(self).first_sets@.len() == 0,
        ensures
            final(self).has_first(),
            final(self).grammar == old(self).grammar,
            final(self)@ == (TableView { first: first(old(self).grammar@), ..old(self)@ }),
            final(self).states@ == old(self).states@,
            final(self).follow_sets@ == old(self).follow_sets@,
    {
        self.first_sets = first_table(self.grammar);
    }

    /// What the symbols can begin with, one after the other.
    pub fn first_of_string(&self, symbols: &[usize]) -> (result: BTreeSet<usize>)
        requires
            bounded(set_views(self.first_sets@), self.first_sets@.len()),
        ensures
            result@ == first_of(self@.first, symbols@),
    {
        first_of_symbols(&self.first_sets, symbols)
    }

    /// Computes the FOLLOW sets.
    pub fn compute_follow_sets(&mut self)
        requires
            wf(old(self).grammar@),
            old(self).has_first(),
            old(self).follow_sets@.len() == 0,
        ensures
            final(self).has_follow(),
            final(self).has_first(),
            final(self).grammar == old(self).grammar,
            final(self)@ == (TableView { follow: follow_of(old(self).grammar@), ..old(self)@ }),
            final(self).states@ == old(self).states@,
    {
        self.follow_sets = follow_table(self.grammar, &self.first_sets);
    }

    /// The closure of a set of items.
    pub fn closure(&self, items: &ItemSet) -> (result: ItemSet)
        requires
            wf(self.grammar@),
            items.wf(),
            all_items(self.grammar@, items@),
        ensures
            result.wf(),
            result@ == closure(self.grammar@, items@),
            all_items(self.grammar@, result@),
    {
        closure_of(self.grammar, items)
    }

    /// The items after `symbol` has been read in the state with the given items.
    pub fn goto_set(&self, items: &ItemSet, symbol: usize) -> (result: ItemSet)
        requires
            wf(self.grammar@),
            items.wf(),
            all_items(self.grammar@, items@),
        ensures
            result.wf(),
            result@ == goto(self.grammar@, items@, symbol),
            all_items(self.grammar@, result@),
    {
        goto_of(self.grammar, items, symbol)
    }

    /// Finds the states.
    pub fn build_states(&mut self)
        requires
            wf(old(self).grammar@),
            old(self).grammar@.rules.len() >= 1,
            old(self).states@.len() == 0,
        ensures
            final(self).has_states(),
            final(self).grammar == old(self).grammar,
            final(self)@ == (TableView { states: states_of(old(self).grammar@), ..old(self)@ }),
            final(self).first_sets@ == old(self).first_sets@,
            final(self).follow_sets@ == old(self).follow_sets@,
    {
        self.states = find_states(self.grammar);
    }

    /// Whether precedence and associativity settle a conflict between shifting the token
    /// and reducing by the rule.
    fn is_settled(&self, token: usize, reduce_rule: usize) -> (r: bool)
        requires
            reduce_rule < self.grammar@.rules.len(),
        ensures
            r == settled(self.grammar@, token, reduce_rule as int),
    {
        proof {
            assert(self.grammar@.rules[reduce_rule as int]
                == self.grammar.rules@[reduce_rule as int]@);
        }
        let (prec, assoc) = self.grammar.rule_prec(&self.grammar.rules[reduce_rule]);
        let token_prec: i32 = self.token_prec(token);
        prec > 0 && token_prec > 0 && (prec != token_prec || assoc != Assoc::Unset)
    }

    /// The precedence of the token.
    fn token_prec(&self, token: usize) -> (r: i32)
        ensures
            r == token_prec(self.grammar@, token),
    {
        match self.grammar.token_info.get(&token) {
            Some(info) => {
                proof {
                    assert(self.grammar@.tokens[token] == info@);
                }
                info.prec
            },
            None => 0,
        }
    }

    /// Decides between shifting the token and reducing by the rule, and counts a conflict
    /// that is not settled.
    pub fn resolve_sr_conflict(
        &mut self,
        token: usize,
        reduce_rule: usize,
        shift_action: i32,
    ) -> (action: i32)
        requires
            reduce_rule < old(self).grammar@.rules.len() <= i32::MAX,
            !settled(old(self).grammar@, token, reduce_rule as int) ==> old(self).sr_conflicts
                < i32::MAX,
        ensures
            action == resolved(
                old(self).grammar@,
                token,
                reduce_rule as int,
                shift_action as int,
            ),
            *final(self) == (TableGenerator {
                sr_conflicts: final(self).sr_conflicts,
                ..*old(self)
            }),
            final(self).sr_conflicts == old(self).sr_conflicts + if settled(
                old(self).grammar@,
                token,
                reduce_rule as int,
            ) {
                0int
            } else {
                1
            },
    {
        proof {
            assert(self.grammar@.rules[reduce_rule as int]
                == self.grammar.rules@[reduce_rule as int]@);
        }
        let (prec, assoc) = self.grammar.rule_prec(&self.grammar.rules[reduce_rule]);
        let token_prec: i32 = self.token_prec(token);
        if prec > 0 && token_prec > 0 {
            if prec > token_prec {
                return -(reduce_rule as i32) - 1;
            } else if token_prec > prec {
                return shift_action;
            } else {
                match assoc {
                    Assoc::Left => {
                        return -(reduce_rule as i32) - 1;
                    },
                    Assoc::Right => {
                        return shift_action;
                    },
                    Assoc::NonAssoc => {
                        return ERROR_ACTION;
                    },
                    Assoc::Unset => {},
                }
            }
        }
        self.sr_conflicts = self.sr_conflicts + 1;
        shift_action
    }

    /// The action on `t` in the state with the given items, where shifting `t` is the
    /// action `shift`. Conflicts are counted; the result says whether the counts have
    /// room.
    fn fill_cell(&mut self, items: &ItemSet, t: usize, shift: i32) -> (r: (bool, Option<i32>))
        requires
            wf(old(self).grammar@),
            old(self).has_follow(),
            old(self).grammar@.rules.len() <= i32::MAX,
            is_symbol(old(self).grammar@, t),
            items.wf(),
            all_items(old(self).grammar@, items@),
            expects(old(self).grammar@, items@, t) ==> shift > 0,
            old(self).sr_conflicts >= 0,
            old(self).rr_conflicts >= 0,
        ensures
            ({
                let c = cell(old(self).grammar@, t, shift as int, items.items@);
                &&& r.0 == (old(self).sr_conflicts + c.sr <= i32::MAX && old(self).rr_conflicts
                    + c.rr <= i32::MAX)
                &&& r.0 ==> is_act(r.1, c.act)
                &&& r.0 ==> final(self).sr_conflicts == old(self).sr_conflicts + c.sr
                &&& r.0 ==> final(self).rr_conflicts == old(self).rr_conflicts + c.rr
            }),
            *final(self) == (TableGenerator {
                sr_conflicts: final(self).sr_conflicts,
                rr_conflicts: final(self).rr_conflicts,
                ..*old(self)
            }),
    {
        let ghost g = self.grammar@;
        let ghost sr = self.sr_conflicts;
        let ghost rr = self.rr_conflicts;
        let ghost before = *self;
        let mut act: Option<i32> = None;
        let mut i: usize = 0;
        proof {
            assert(items.items@.take(0) =~= Seq::<LR0Item>::empty());
        }
        while i < items.items.len()
            invariant
                i <= items.items@.len(),
                g == self.grammar@,
                wf(g),
                self.has_follow(),
                g.rules.len() <= i32::MAX,
                is_symbol(g, t),
                all_items(g, items@),
                expects(g, items@, t) ==> shift > 0,
                before == *old(self),
                g == old(self).grammar@,
                sr == before.sr_conflicts,
                rr == before.rr_conflicts,
                sr >= 0,
                rr >= 0,
                *self == (TableGenerator {
                    sr_conflicts: self.sr_conflicts,
                    rr_conflicts: self.rr_conflicts,
                    ..before
                }),
                is_act(act, cell(g, t, shift as int, items.items@.take(i as int)).act),
                names_rule(g, act),
                self.sr_conflicts == sr + cell(
                    g,
                    t,
                    shift as int,
                    items.items@.take(i as int),
                ).sr,
                self.rr_conflicts == rr + cell(
                    g,
                    t,
                    shift as int,
                    items.items@.take(i as int),
                ).rr,
            decreases items.items@.len() - i,
        {
            let item: LR0Item = items.items[i];
            let ghost c = cell(g, t, shift as int, items.items@.take(i as int));
            let ghost d = cell(g, t, shift as int, items.items@.take(i + 1));
            proof {
                assert(items@.contains(items.items@[i as int]));
                assert(is_item(g, item));
                assert(g.rules[item.rule as int] == self.grammar.rules@[item.rule as int]@);
                assert(wf_rule(g, g.rules[item.rule as int]));
                assert(items.items@.take(i + 1).drop_last() =~= items.items@.take(i as int));
                assert(d == with_item(g, t, shift as int, item, c));
                lemma_cell_grows(g, t, shift as int, items.items@, i + 1);
            }
            let rule: &Rule = &self.grammar.rules[item.rule];
            if item.dot < rule.rhs.len() {
                if rule.rhs[item.dot] == t && self.grammar.is_terminal(t) {
                    proof {
                        assert(awaits(g, item, t));
                        assert(expects(g, items@, t));
                    }
                    match act {
                        Some(existing) => {
                            if existing < 0 && existing != ERROR_ACTION {
                                let reduce_rule: usize = (-(existing + 1)) as usize;
                                if self.sr_conflicts == i32::MAX && !self.is_settled(
                                    t,
                                    reduce_rule,
                                ) {
                                    return (false, act);
                                }
                                act = Some(self.resolve_sr_conflict(t, reduce_rule, shift));
                            }
                        },
                        None => {
                            act = Some(shift);
                        },
                    }
                }
            } else if item.rule == 0 {
                if t == EOF_TOKEN {
                    act = Some(ACCEPT_ACTION);
                }
            } else {
                let lhs: usize = rule.lhs;
                proof {
                    assert(set_views(self.follow_sets@)[lhs as int] == self.follow_sets@[lhs as int]@);
                    assert(self@.follow.contains((lhs, t)) == self.follow_sets@[lhs as int]@.contains(
                        t,
                    ));
                }
                if self.follow_sets[lhs].contains(&t) {
                    match act {
                        Some(existing) => {
                            if existing > 0 {
                                if self.sr_conflicts == i32::MAX && !self.is_settled(
                                    t,
                                    item.rule,
                                ) {
                                    return (false, act);
                                }
                                act = Some(self.resolve_sr_conflict(t, item.rule, existing));
                            } else if existing < 0 && existing != ERROR_ACTION {
                                let other: usize = (-(existing + 1)) as usize;
                                if self.rr_conflicts == i32::MAX {
                                    return (false, act);
                                }
                                self.rr_conflicts = self.rr_conflicts + 1;
                                if item.rule < other {
                                    act = Some(-(item.rule as i32) - 1);
                                }
                            }
                        },
                        None => {
                            act = Some(-(item.rule as i32) - 1);
                        },
                    }
                }
            }
            i += 1;
        }
        proof {
            assert(items.items@.take(i as int) =~= items.items@);
        }
        (true, act)
    }

    /// The actions and the gotos of state number `k`. Conflicts are counted; the result
    /// says whether the counts have room.
    fn fill_row(&mut self, k: usize) -> (r: (bool, HashMap<usize, i32>, HashMap<usize, usize>))
        requires
            wf(old(self).grammar@),
            old(self).grammar@.rules.len() >= 1,
            old(self).has_follow(),
            old(self).has_states(),
            old(self).grammar@.rules.len() <= i32::MAX,
            old(self).states@.len() <= i32::MAX,
            k < old(self).states@.len(),
            old(self).sr_conflicts >= 0,
            old(self).rr_conflicts >= 0,
        ensures
            ({
                let g = old(self).grammar@;
                let c = row_conflicts(g, k as int, g.symbols.len() as int);
                &&& r.0 == (old(self).sr_conflicts + c.0 <= i32::MAX && old(self).rr_conflicts
                    + c.1 <= i32::MAX)
                &&& r.0 ==> r.1@ == action_row(g, k as int)
                &&& r.0 ==> r.2@ == goto_row(g, k as int)
                &&& r.0 ==> final(self).sr_conflicts == old(self).sr_conflicts + c.0
                &&& r.0 ==> final(self).rr_conflicts == old(self).rr_conflicts + c.1
            }),
            *final(self) == (TableGenerator {
                sr_conflicts: final(self).sr_conflicts,
                rr_conflicts: final(self).rr_conflicts,
                ..*old(self)
            }),
    {
        let ghost g = self.grammar@;
        let ghost before = *self;
        let ghost all = states_of(g);
        let n: usize = self.grammar.symbols.len();
        let state: ItemSet = self.states[k].copy();
        proof {
            lemma_states(g);
            assert(item_sets(self.states@)[k as int] == state@);
            lemma_listed(state.items@);
        }
        let mut row: HashMap<usize, i32> = HashMap::new();
        let mut gotos: HashMap<usize, usize> = HashMap::new();
        let mut x: usize = 0;
        while x < n
            invariant
                x <= n,
                n == g.symbols.len(),
                before == *old(self),
                g == before.grammar@,
                g == self.grammar@,
                all == states_of(g),
                wf(g),
                g.rules.len() >= 1,
                self.has_follow(),
                self.has_states(),
                g.rules.len() <= i32::MAX,
                self.states@.len() <= i32::MAX,
                k < self.states@.len(),
                before.sr_conflicts >= 0,
                before.rr_conflicts >= 0,
                state.wf(),
                all_items(g, state@),
                state@ == all[k as int],
                listed(state@) == state.items@,
                *self == (TableGenerator {
                    sr_conflicts: self.sr_conflicts,
                    rr_conflicts: self.rr_conflicts,
                    ..before
                }),
                self.sr_conflicts == before.sr_conflicts + row_conflicts(g, k as int, x as int).0,
                self.rr_conflicts == before.rr_conflicts + row_conflicts(g, k as int, x as int).1,
                forall|t: usize| #[trigger]
                    row@.dom().contains(t) <==> t < x && cell_at(g, k as int, t).act is Some,
                forall|t: usize| #[trigger]
                    row@.dom().contains(t) ==> row@[t] as int == cell_at(g, k as int, t).act->0,
                forall|y: usize| #[trigger]
                    gotos@.dom().contains(y) <==> y < x && g.nonterminals.contains(y) && expects(
                        g,
                        state@,
                        y,
                    ),
                forall|y: usize| #[trigger]
                    gotos@.dom().contains(y) ==> gotos@[y] as int == target(g, k as int, y),
            decreases n - x,
        {
            let mut shift: i32 = 0;
            if expects_symbol(self.grammar, &state, x) {
                let next: ItemSet = self.goto_set(&state, x);
                let at: usize = position(&self.states, &next);
                proof {
                    lemma_states(g);
                    assert(all.contains(next@));
                    let j = all.index_of(next@);
                    assert(all[j] == next@);
                    assert(all[at as int] == next@);
                    assert(j == at);
                    assert(target(g, k as int, x) == at);
                }
                shift = at as i32 + 1;
                if self.grammar.is_nonterminal(x) {
                    gotos.insert(x, at);
                }
            } else {
                proof {
                    assert forall|i: int| 0 <= i < state.items@.len() implies !awaits(
                        g,
                        #[trigger] state.items@[i],
                        x,
                    ) by {
                        assert(state@.contains(state.items@[i]));
                    }
                    lemma_cell_without_shift(
                        g,
                        x,
                        shift as int,
                        shift_to(target(g, k as int, x)),
                        state.items@,
                    );
                }
            }
            let (ok, act) = self.fill_cell(&state, x, shift);
            proof {
                assert(cell(g, x, shift as int, state.items@) == cell_at(g, k as int, x));
                lemma_row_grows(g, k as int, x + 1, n as int);
            }
            if !ok {
                return (false, row, gotos);
            }
            match act {
                Some(a) => {
                    row.insert(x, a);
                },
                None => {},
            }
            x += 1;
        }
        proof {
            assert(row@ =~= action_row(g, k as int));
            assert(gotos@ =~= goto_row(g, k as int)) by {
                assert forall|y: usize|
                    g.nonterminals.contains(y) && expects(g, state@, y) implies #[trigger] gotos@.dom().contains(
                    y,
                ) by {
                    assert(is_symbol(g, y));
                }
            }
        }
        (true, row, gotos)
    }

    /// Fills the tables, with the states and the FOLLOW sets there. The result says
    /// whether the numbers have room.
    fn fill_tables(&mut self) -> (ok: bool)
        requires
            wf(old(self).grammar@),
            old(self).grammar@.rules.len() >= 1,
            old(self).has_follow(),
            old(self).has_states(),
            old(self).sr_conflicts == 0,
            old(self).rr_conflicts == 0,
        ensures
            ok == has_room(old(self).grammar@),
            final(self).grammar == old(self).grammar,
            ok ==> final(self).states@ == old(self).states@,
            ok ==> final(self)@ == (TableView {
                first: old(self)@.first,
                ..tables(old(self).grammar@)
            }),
    {
        let ghost g = self.grammar@;
        let ghost before = *self;
        let n: usize = self.states.len();
        proof {
            assert(item_sets(self.states@).len() == self.states@.len());
        }
        if self.grammar.rules.len() > i32::MAX as usize || n > i32::MAX as usize {
            return false;
        }
        self.action_table = Vec::new();
        self.goto_table = Vec::new();
        let mut k: usize = 0;
        while k < n
            invariant
                k <= n,
                n == self.states@.len(),
                n == states_of(g).len(),
                n <= i32::MAX,
                before == *old(self),
                g == before.grammar@,
                wf(g),
                1 <= g.rules.len() <= i32::MAX,
                self.has_follow(),
                self.has_states(),
                *self == (TableGenerator {
                    sr_conflicts: self.sr_conflicts,
                    rr_conflicts: self.rr_conflicts,
                    action_table: self.action_table,
                    goto_table: self.goto_table,
                    ..before
                }),
                self.sr_conflicts == conflicts(g, k as int).0,
                self.rr_conflicts == conflicts(g, k as int).1,
                self.action_table@.len() == k,
                self.goto_table@.len() == k,
                forall|j: int| 0 <= j < k ==> (#[trigger] self.action_table@[j])@ == action_row(g, j),
                forall|j: int| 0 <= j < k ==> (#[trigger] self.goto_table@[j])@ == goto_row(g, j),
            decreases n - k,
        {
            let (ok, row, gotos) = self.fill_row(k);
            proof {
                lemma_conflicts_grow(g, k + 1, n as int);
            }
            if !ok {
                return false;
            }
            self.action_table.push(row);
            self.goto_table.push(gotos);
            k += 1;
        }
        proof {
            assert(self@.actions =~= tables(g).actions);
            assert(self@.gotos =~= tables(g).gotos);
        }
        true
    }

    /// Fills the tables.
    pub fn build_tables(&mut self)
        requires
            wf(old(self).grammar@),
            old(self).grammar@.rules.len() >= 1,
            has_room(old(self).grammar@),
            old(self).has_follow(),
            old(self).has_states(),
            old(self).sr_conflicts == 0,
            old(self).rr_conflicts == 0,
        ensures
            final(self).grammar == old(self).grammar,
            final(self).states@ == old(self).states@,
            final(self)@ == (TableView {
                first: old(self)@.first,
                ..tables(old(self).grammar@)
            }),
    {
        self.fill_tables();
    }

    /// Builds all tables of the grammar.
    pub fn generate(&mut self)
        requires
            complete(old(self).grammar@),
            has_room(old(self).grammar@),
            old(self).is_fresh(),
        ensures
            final(self).grammar == old(self).grammar,
            final(self).ready(),
    {
        self.compute_first_sets();
        self.compute_follow_sets();
        self.build_states();
        self.build_tables();
        proof {
            lemma_tables_shaped(self.grammar@);
        }
    }

    /// Builds all tables of the grammar where the numbers in them have room. The result
    /// says whether they have.
    pub fn try_generate(&mut self) -> (ok: bool)
        requires
            complete(old(self).grammar@),
            old(self).is_fresh(),
        ensures
            final(self).grammar == old(self).grammar,
            ok == has_room(old(self).grammar@),
            ok ==> final(self).ready(),
    {
        self.compute_first_sets();
        self.compute_follow_sets();
        self.build_states();
        proof {
            lemma_tables_shaped(self.grammar@);
        }
        self.fill_tables()
    }
}

} // verus!
