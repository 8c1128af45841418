//! Which terminal gives a rule its precedence, and how conflicts are settled.

use crate::automaton::states_of;
use crate::entries::{
    can_accept, can_reduce, can_shift, lemma_entry_count, lemma_entry_exists, lemma_entry_lowest,
    lemma_entry_resolved, lemma_entry_several,
};
use crate::grammar::{complete, is_symbol, last_prec, prec_of, wf, Assoc, GrammarView, RuleView};
use crate::machine::action_in;
use crate::tables::{
    action_row, cell_at, conflicts, has_room, row_conflicts, tables, target, ERROR_ACTION,
};
use vstd::prelude::*;

verus! {

/// Whether the terminal `d` gives the rule its precedence: the rule names it, or it names
/// none and `d` stands in the rule with no terminal behind it.
pub open spec fn decides(g: GrammarView, r: RuleView, d: usize) -> bool {
    match r.prec_sym {
        Some(p) => p == d && g.terminals.contains(d),
        None => exists|i: int| #[trigger] is_last_terminal(g, r.rhs, i) && r.rhs[i] == d,
    }
}

/// Whether a terminal stands at `i` and none behind it.
pub open spec fn is_last_terminal(g: GrammarView, rhs: Seq<usize>, i: int) -> bool {
    &&& 0 <= i < rhs.len()
    &&& g.terminals.contains(rhs[i])
    &&& forall|j: int| i < j < rhs.len() ==> !g.terminals.contains(#[trigger] rhs[j])
}

proof fn lemma_last_prec(g: GrammarView, rhs: Seq<usize>, i: int)
    requires
        wf(g),
        is_last_terminal(g, rhs, i),
    ensures
        last_prec(g, rhs) == if g.tokens[rhs[i]].prec > 0 {
            (g.tokens[rhs[i]].prec, g.tokens[rhs[i]].assoc)
        } else {
            (0i32, Assoc::Unset)
        },
    decreases rhs.len(),
{
    if i < rhs.len() - 1 {
        let b = rhs.drop_last();
        assert(!g.terminals.contains(rhs[rhs.len() - 1]));
        assert forall|j: int| i < j < b.len() implies !g.terminals.contains(#[trigger] b[j]) by {
            assert(b[j] == rhs[j]);
        }
        assert(b[i] == rhs[i]);
        assert(is_last_terminal(g, b, i));
        lemma_last_prec(g, b, i);
    }
}

proof fn lemma_no_prec(g: GrammarView, rhs: Seq<usize>)
    requires
        forall|j: int| 0 <= j < rhs.len() ==> !g.terminals.contains(#[trigger] rhs[j]),
    ensures
        last_prec(g, rhs) == (0i32, Assoc::Unset),
    decreases rhs.len(),
{
    if rhs.len() > 0 {
        let b = rhs.drop_last();
        assert(!g.terminals.contains(rhs[rhs.len() - 1]));
        assert forall|j: int| 0 <= j < b.len() implies !g.terminals.contains(#[trigger] b[j]) by {
            assert(b[j] == rhs[j]);
        }
        lemma_no_prec(g, b);
    }
}

/// A rule that names no token for its precedence has that of the terminal at `i`, wherever
/// in the rule that is, if no terminal stands behind it.
pub proof fn law_rule_precedence(g: GrammarView, r: RuleView, i: int)
    requires
        wf(g),
        r.prec_sym matches Some(p) ==> !g.terminals.contains(p),
        0 <= i < r.rhs.len(),
        g.terminals.contains(r.rhs[i]),
        forall|j: int| i < j < r.rhs.len() ==> !g.terminals.contains(#[trigger] r.rhs[j]),
    ensures
        g.tokens[r.rhs[i]].prec > 0 ==> prec_of(g, r) == (
            g.tokens[r.rhs[i]].prec,
            g.tokens[r.rhs[i]].assoc,
        ),
        g.tokens[r.rhs[i]].prec == 0 ==> prec_of(g, r) == (0i32, Assoc::Unset),
{
    assert(is_last_terminal(g, r.rhs, i));
    lemma_last_prec(g, r.rhs, i);
}

/// A rule that names no token for its precedence and holds no terminal has none.
pub proof fn law_rule_no_precedence(g: GrammarView, r: RuleView)
    requires
        wf(g),
        r.prec_sym matches Some(p) ==> !g.terminals.contains(p),
        forall|j: int| 0 <= j < r.rhs.len() ==> !g.terminals.contains(#[trigger] r.rhs[j]),
    ensures
        prec_of(g, r) == (0i32, Assoc::Unset),
{
    lemma_no_prec(g, r.rhs);
}

/// A rule that names a token for its precedence has that of the token, whatever stands in
/// the rule.
pub proof fn law_rule_named_precedence(g: GrammarView, r: RuleView, p: usize)
    requires
        wf(g),
        r.prec_sym == Some(p),
        g.terminals.contains(p),
    ensures
        prec_of(g, r) == (g.tokens[p].prec, g.tokens[p].assoc),
{
}

/// Where a state allows to shift `t` and to reduce by one rule, and the terminal `d` gives
/// the rule its precedence, the table says what the declarations of the two terminals say:
/// the higher precedence wins; of equal ones, associativity to the left reduces, to the
/// right shifts, and with none the input is refused. Where one of the two has no
/// precedence, the table shifts and a conflict is counted.
pub proof fn law_conflict_settled(g: GrammarView, k: int, t: usize, r: int, d: usize)
    requires
        complete(g),
        has_room(g),
        0 <= k < tables(g).states.len(),
        can_shift(g, k, t),
        can_reduce(g, k, t, r),
        !can_accept(g, k, t),
        forall|q: int| #[trigger] can_reduce(g, k, t, q) ==> q == r,
        decides(g, g.rules[r], d),
    ensures
        ({
            let a = action_in(tables(g), k, t);
            let rule = g.tokens[d].prec;
            let token = g.tokens[t].prec;
            let assoc = g.tokens[d].assoc;
            let reduce = -r - 1;
            let shift = target(g, k, t) + 1;
            let count = cell_at(g, k, t).sr;
            &&& cell_at(g, k, t).rr == 0
            &&& rule == 0 || token == 0 ==> a == shift && count == 1
            &&& rule > token && token > 0 ==> a == reduce && count == 0
            &&& token > rule && rule > 0 ==> a == shift && count == 0
            &&& rule == token && rule > 0 ==> match assoc {
                Assoc::Left => a == reduce && count == 0,
                Assoc::Right => a == shift && count == 0,
                Assoc::NonAssoc => a == ERROR_ACTION && count == 0,
                Assoc::Unset => a == shift && count == 1,
            }
        }),
{
    lemma_entry_resolved(g, k, t, r);
    assert(tables(g).actions[k] == action_row(g, k));
    assert(crate::grammar::wf_token(g, d, g.tokens[d]));
    assert(crate::grammar::wf_token(g, t, g.tokens[t]));
    let rule = g.rules[r];
    match rule.prec_sym {
        Some(p) => {
            law_rule_named_precedence(g, rule, p);
        },
        None => {
            let i = choose|i: int| #[trigger]
                is_last_terminal(g, rule.rhs, i) && rule.rhs[i] == d;
            law_rule_precedence(g, rule, i);
        },
    }
}

/// Where a state allows to shift `t` and to reduce by one rule that no terminal gives a
/// precedence, the table shifts and a conflict is counted.
pub proof fn law_conflict_shifts(g: GrammarView, k: int, t: usize, r: int)
    requires
        complete(g),
        has_room(g),
        0 <= k < tables(g).states.len(),
        can_shift(g, k, t),
        can_reduce(g, k, t, r),
        !can_accept(g, k, t),
        forall|q: int| #[trigger] can_reduce(g, k, t, q) ==> q == r,
        g.rules[r].prec_sym is None,
        forall|j: int|
            0 <= j < g.rules[r].rhs.len() ==> !g.terminals.contains(#[trigger] g.rules[r].rhs[j]),
    ensures
        action_in(tables(g), k, t) == target(g, k, t) + 1,
        cell_at(g, k, t).sr == 1,
{
    lemma_entry_resolved(g, k, t, r);
    assert(tables(g).actions[k] == action_row(g, k));
    law_rule_no_precedence(g, g.rules[r]);
}

/// Where a state allows to reduce by several rules and nothing else, the table has the one
/// with the lowest number.
pub proof fn law_conflict_lowest(g: GrammarView, k: int, t: usize, r: int)
    requires
        complete(g),
        has_room(g),
        0 <= k < tables(g).states.len(),
        is_symbol(g, t),
        !can_shift(g, k, t),
        !can_accept(g, k, t),
        can_reduce(g, k, t, r),
        forall|q: int| #[trigger] can_reduce(g, k, t, q) ==> r <= q,
    ensures
        action_in(tables(g), k, t) == -r - 1,
{
    lemma_entry_lowest(g, k, t, r);
    lemma_entry_exists(g, k, t);
    assert(tables(g).actions[k] == action_row(g, k));
    crate::entries::lemma_entry_allowed(g, k, t);
}

// ---------------------------------------------------------------------------
// How many conflicts are reported
// ---------------------------------------------------------------------------

/// Where a state allows neither to shift nor to accept, one conflict between rules is counted
/// for each rule by which it allows to reduce but one.
pub proof fn law_reduce_conflicts(g: GrammarView, k: int, t: usize)
    requires
        complete(g),
        has_room(g),
        0 <= k < tables(g).states.len(),
        !can_accept(g, k, t),
        !can_shift(g, k, t),
    ensures
        ({
            let rules = Set::new(|r: int| can_reduce(g, k, t, r));
            &&& rules.finite()
            &&& cell_at(g, k, t).sr == 0
            &&& rules.len() == 0 ==> cell_at(g, k, t).rr == 0
            &&& rules.len() > 0 ==> cell_at(g, k, t).rr == rules.len() - 1
        }),
{
    lemma_entry_count(g, k, t);
}

/// Whether a conflict between shifting and reducing is counted in state number `p.0` on
/// symbol number `p.1`.
pub open spec fn has_shift_conflict(g: GrammarView, p: (int, int)) -> bool {
    &&& 0 <= p.0 < tables(g).states.len()
    &&& 0 <= p.1 < g.symbols.len()
    &&& cell_at(g, p.0, p.1 as usize).sr > 0
}

/// The places in the row of state number `k` below `x` where a conflict is counted, with
/// those in the rows before it.
spec fn conflict_places(g: GrammarView, k: int, x: int) -> Set<(int, int)>
    decreases k, x,
{
    if k < 0 {
        Set::empty()
    } else if x <= 0 {
        if k == 0 {
            Set::empty()
        } else {
            conflict_places(g, k - 1, g.symbols.len() as int)
        }
    } else if cell_at(g, k, (x - 1) as usize).sr > 0 {
        conflict_places(g, k, x - 1).insert((k, x - 1))
    } else {
        conflict_places(g, k, x - 1)
    }
}

proof fn lemma_conflict_places(g: GrammarView, k: int, x: int)
    requires
        0 <= k,
        0 <= x <= g.symbols.len(),
        g.symbols.len() <= usize::MAX,
        forall|j: int, y: int|
            0 <= j <= k && 0 <= y < g.symbols.len() ==> #[trigger] cell_at(g, j, y as usize).sr
                <= 1,
    ensures
        conflict_places(g, k, x).finite(),
        conflict_places(g, k, x).len() == conflicts(g, k).0 + row_conflicts(g, k, x).0,
        forall|p: (int, int)| #[trigger]
            conflict_places(g, k, x).contains(p) <==> {
                &&& 0 <= p.0 <= k
                &&& 0 <= p.1 < if p.0 == k {
                    x
                } else {
                    g.symbols.len() as int
                }
                &&& cell_at(g, p.0, p.1 as usize).sr > 0
            },
    decreases k, x,
{
    if x <= 0 {
        if k > 0 {
            lemma_conflict_places(g, k - 1, g.symbols.len() as int);
        }
    } else {
        lemma_conflict_places(g, k, x - 1);
        assert(cell_at(g, k, (x - 1) as usize).sr <= 1);
        assert(!conflict_places(g, k, x - 1).contains((k, x - 1)));
    }
}

/// Where no cell of the tables has more than one conflict between shifting and reducing, the
/// number that is reported is the number of cells that have one.
pub proof fn law_shift_conflicts(g: GrammarView)
    requires
        complete(g),
        forall|j: int, y: int|
            0 <= j < tables(g).states.len() && 0 <= y < g.symbols.len() ==> #[trigger] cell_at(
                g,
                j,
                y as usize,
            ).sr <= 1,
    ensures
        ({
            let places = Set::new(|p: (int, int)| has_shift_conflict(g, p));
            places.finite() && tables(g).sr_conflicts == places.len()
        }),
{
    crate::automaton::lemma_states(g);
    let n = states_of(g).len() as int;
    let places = Set::new(|p: (int, int)| has_shift_conflict(g, p));
    lemma_conflict_places(g, n - 1, g.symbols.len() as int);
    assert(places =~= conflict_places(g, n - 1, g.symbols.len() as int));
}

/// Where a state allows to shift `t` and to reduce by several rules: if `t` has no precedence,
/// or none of the rules has one, or `t` has a higher one than each of them, the table shifts.
/// If each rule has a higher one than `t`, which has one, the table reduces by the rule with
/// the lowest number.
pub proof fn law_conflict_several(g: GrammarView, k: int, t: usize)
    requires
        complete(g),
        has_room(g),
        0 <= k < tables(g).states.len(),
        can_shift(g, k, t),
        !can_accept(g, k, t),
    ensures
        ({
            let a = action_in(tables(g), k, t);
            let token = g.tokens[t].prec;
            &&& (forall|r: int| #[trigger]
                can_reduce(g, k, t, r) ==> token == 0 || rule_prec_of(g, r) == 0 || rule_prec_of(
                    g,
                    r,
                ) < token) ==> a == target(g, k, t) + 1
            &&& token > 0 && (forall|r: int| #[trigger]
                can_reduce(g, k, t, r) ==> rule_prec_of(g, r) > token) ==> forall|r: int|
                can_reduce(g, k, t, r) && (forall|q: int| #[trigger]
                    can_reduce(g, k, t, q) ==> r <= q) ==> a == -r - 1
        }),
{
    lemma_entry_several(g, k, t);
    assert(tables(g).actions[k] == action_row(g, k));
    assert(is_symbol(g, t));
    lemma_entry_exists(g, k, t);
    crate::entries::lemma_entry_allowed(g, k, t);
    assert(crate::grammar::wf_token(g, t, g.tokens[t]));
    let shift = crate::tables::shift_to(target(g, k, t));
    assert forall|r: int| #[trigger]
        can_reduce(g, k, t, r) && rule_prec_of(g, r) >= 0 implies ({
        let token = g.tokens[t].prec;
        &&& token == 0 || rule_prec_of(g, r) == 0 || rule_prec_of(g, r) < token
            ==> crate::tables::resolved(g, t, r, shift) == shift
        &&& token > 0 && rule_prec_of(g, r) > token ==> crate::tables::resolved(g, t, r, shift)
            == -r - 1
    }) by {}
    assert forall|r: int| #[trigger] can_reduce(g, k, t, r) implies rule_prec_of(g, r) >= 0 by {
        lemma_prec_not_negative(g, g.rules[r]);
    }
}

/// The precedence of rule number `r`.
pub open spec fn rule_prec_of(g: GrammarView, r: int) -> i32 {
    prec_of(g, g.rules[r]).0
}

proof fn lemma_prec_not_negative(g: GrammarView, r: RuleView)
    requires
        wf(g),
    ensures
        prec_of(g, r).0 >= 0,
{
    match r.prec_sym {
        Some(p) => {
            if g.tokens.dom().contains(p) {
                assert(crate::grammar::wf_token(g, p, g.tokens[p]));
            }
        },
        None => {},
    }
    lemma_last_not_negative(g, r.rhs);
}

proof fn lemma_last_not_negative(g: GrammarView, rhs: Seq<usize>)
    ensures
        last_prec(g, rhs).0 >= 0,
    decreases rhs.len(),
{
    if rhs.len() > 0 {
        lemma_last_not_negative(g, rhs.drop_last());
    }
}

} // verus!
