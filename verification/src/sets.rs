//! The FIRST and FOLLOW sets of a grammar.

use crate::grammar::{is_symbol, wf, wf_rule, Grammar, GrammarView, Rule, RuleView, EOF_TOKEN};
use std::collections::BTreeSet;
use vstd::prelude::*;

verus! {

broadcast use vstd::std_specs::btree::group_btree_axioms;

/// What stands for the empty string in a FIRST set.
pub const EPSILON: usize = usize::MAX;

/// A relation between symbols and the terminals in their sets.
pub type Relation = Set<(usize, usize)>;

// ---------------------------------------------------------------------------
// FIRST
// ---------------------------------------------------------------------------

/// Whether the first `k` of the symbols may all be empty.
pub open spec fn nullable_upto(f: Relation, syms: Seq<usize>, k: int) -> bool {
    forall|i: int| 0 <= i < k ==> f.contains((#[trigger] syms[i], EPSILON))
}

/// Whether `f` holds of the rule's left-hand side what it must hold by the rule: what a
/// symbol behind symbols that may be empty can begin with, and the empty string where
/// all symbols may be empty.
pub open spec fn first_closed_rule(f: Relation, r: RuleView) -> bool {
    &&& forall|k: int, t: usize|
        0 <= k < r.rhs.len() && nullable_upto(f, r.rhs, k) && t != EPSILON && #[trigger] f.contains(
            (r.rhs[k], t),
        ) ==> f.contains((r.lhs, t))
    &&& nullable_upto(f, r.rhs, r.rhs.len() as int) ==> f.contains((r.lhs, EPSILON))
}

/// Whether `f` holds what it must hold by the rules, and each terminal of itself.
pub open spec fn first_closed(g: GrammarView, f: Relation) -> bool {
    &&& forall|t: usize| #[trigger] g.terminals.contains(t) ==> f.contains((t, t))
    &&& forall|i: int| 0 <= i < g.rules.len() ==> first_closed_rule(f, #[trigger] g.rules[i])
}

/// FIRST: the least relation that is closed. It holds of a symbol the terminals that
/// what the symbol derives can begin with, and [`EPSILON`] where it derives the empty
/// string.
pub open spec fn first(g: GrammarView) -> Relation {
    Set::new(
        |p: (usize, usize)|
            forall|f: Relation| #[trigger] first_closed(g, f) ==> f.contains(p),
    )
}

/// What the symbols can begin with, one after the other; with [`EPSILON`] where all of
/// them may be empty.
pub open spec fn first_of(f: Relation, syms: Seq<usize>) -> Set<usize> {
    Set::new(
        |t: usize|
            if t == EPSILON {
                nullable_upto(f, syms, syms.len() as int)
            } else {
                exists|k: int|
                    0 <= k < syms.len() && nullable_upto(f, syms, k) && #[trigger] f.contains(
                        (syms[k], t),
                    )
            },
    )
}

/// FIRST is closed itself.
pub proof fn lemma_first_closed(g: GrammarView)
    ensures
        first_closed(g, first(g)),
{
    let ff = first(g);
    assert forall|i: int| 0 <= i < g.rules.len() implies first_closed_rule(
        ff,
        #[trigger] g.rules[i],
    ) by {
        let r = g.rules[i];
        assert forall|k: int, t: usize|
            0 <= k < r.rhs.len() && nullable_upto(ff, r.rhs, k) && t != EPSILON
                && #[trigger] ff.contains((r.rhs[k], t)) implies ff.contains((r.lhs, t)) by {
            assert forall|f: Relation| #[trigger] first_closed(g, f) implies f.contains(
                (r.lhs, t),
            ) by {
                assert(first_closed_rule(f, r));
                assert(nullable_upto(f, r.rhs, k));
                assert(f.contains((r.rhs[k], t)));
            }
        }
        if nullable_upto(ff, r.rhs, r.rhs.len() as int) {
            assert forall|f: Relation| #[trigger] first_closed(g, f) implies f.contains(
                (r.lhs, EPSILON),
            ) by {
                assert(first_closed_rule(f, r));
                assert(nullable_upto(f, r.rhs, r.rhs.len() as int));
            }
        }
    }
}

/// FIRST is in each relation that is closed.
pub proof fn lemma_first_least(g: GrammarView, f: Relation)
    requires
        first_closed(g, f),
    ensures
        first(g).subset_of(f),
{
}

// ---------------------------------------------------------------------------
// FOLLOW
// ---------------------------------------------------------------------------

/// Whether `w` holds of the symbol at `k` in the rule what it must hold by the rule: what
/// the rest behind it can begin with, and what follows the left-hand side where the rest
/// may be empty.
pub open spec fn follow_closed_at(f: Relation, w: Relation, r: RuleView, k: int) -> bool {
    let rest = first_of(f, r.rhs.skip(k + 1));
    &&& forall|t: usize|
        t != EPSILON && #[trigger] rest.contains(t) ==> w.contains((r.rhs[k], t))
    &&& rest.contains(EPSILON) ==> forall|t: usize| #[trigger]
        w.contains((r.lhs, t)) ==> w.contains((r.rhs[k], t))
}

/// Whether `w` holds what it must hold by the rules, and the end of the input of the
/// start symbols.
pub open spec fn follow_closed(g: GrammarView, f: Relation, w: Relation) -> bool {
    &&& g.start matches Some(s) ==> w.contains((s, EOF_TOKEN))
    &&& w.contains((g.augmented_start, EOF_TOKEN))
    &&& forall|i: int, k: int|
        #![trigger g.rules[i].rhs[k]]
        0 <= i < g.rules.len() && 0 <= k < g.rules[i].rhs.len() && g.nonterminals.contains(
            g.rules[i].rhs[k],
        ) ==> follow_closed_at(f, w, g.rules[i], k)
}

/// FOLLOW, with `f` for FIRST: the least relation that is closed. It holds of a
/// nonterminal the terminals that may stand behind it.
pub open spec fn follow(g: GrammarView, f: Relation) -> Relation {
    Set::new(
        |p: (usize, usize)|
            forall|w: Relation| #[trigger] follow_closed(g, f, w) ==> w.contains(p),
    )
}

/// FOLLOW is closed itself.
pub proof fn lemma_follow_closed(g: GrammarView, f: Relation)
    ensures
        follow_closed(g, f, follow(g, f)),
{
    let ww = follow(g, f);
    assert forall|i: int, k: int|
        #![trigger g.rules[i].rhs[k]]
        0 <= i < g.rules.len() && 0 <= k < g.rules[i].rhs.len() && g.nonterminals.contains(
            g.rules[i].rhs[k],
        ) implies follow_closed_at(f, ww, g.rules[i], k) by {
        let r = g.rules[i];
        let rest = first_of(f, r.rhs.skip(k + 1));
        assert forall|t: usize| t != EPSILON && #[trigger] rest.contains(t) implies ww.contains(
            (r.rhs[k], t),
        ) by {
            assert forall|w: Relation| #[trigger] follow_closed(g, f, w) implies w.contains(
                (r.rhs[k], t),
            ) by {
                assert(follow_closed_at(f, w, g.rules[i], k));
            }
        }
        if rest.contains(EPSILON) {
            assert forall|t: usize| #[trigger] ww.contains((r.lhs, t)) implies ww.contains(
                (r.rhs[k], t),
            ) by {
                assert forall|w: Relation| #[trigger] follow_closed(g, f, w) implies w.contains(
                    (r.rhs[k], t),
                ) by {
                    assert(follow_closed_at(f, w, g.rules[i], k));
                    assert(w.contains((r.lhs, t)));
                }
            }
        }
    }
}

/// FOLLOW is in each relation that is closed.
pub proof fn lemma_follow_least(g: GrammarView, f: Relation, w: Relation)
    requires
        follow_closed(g, f, w),
    ensures
        follow(g, f).subset_of(w),
{
}

/// FIRST holds terminals only, besides the empty string.
pub proof fn lemma_first_terminals(g: GrammarView, x: usize, t: usize)
    requires
        first(g).contains((x, t)),
        t != EPSILON,
    ensures
        g.terminals.contains(t),
{
    let f = Set::new(|p: (usize, usize)| p.1 == EPSILON || g.terminals.contains(p.1));
    assert(first_closed(g, f)) by {
        assert forall|i: int| 0 <= i < g.rules.len() implies first_closed_rule(
            f,
            #[trigger] g.rules[i],
        ) by {
            let r = g.rules[i];
            assert forall|k: int, u: usize|
                0 <= k < r.rhs.len() && nullable_upto(f, r.rhs, k) && u != EPSILON
                    && #[trigger] f.contains((r.rhs[k], u)) implies f.contains((r.lhs, u)) by {}
        }
    }
    lemma_first_least(g, f);
    assert(f.contains((x, t)));
}

/// FOLLOW holds terminals only.
pub proof fn lemma_follow_terminals(g: GrammarView, x: usize, t: usize)
    requires
        g.terminals.contains(EOF_TOKEN),
        follow(g, first(g)).contains((x, t)),
    ensures
        g.terminals.contains(t),
{
    let f = first(g);
    let w = Set::new(|p: (usize, usize)| g.terminals.contains(p.1));
    assert(follow_closed(g, f, w)) by {
        assert forall|i: int, k: int|
            #![trigger g.rules[i].rhs[k]]
            0 <= i < g.rules.len() && 0 <= k < g.rules[i].rhs.len() && g.nonterminals.contains(
                g.rules[i].rhs[k],
            ) implies follow_closed_at(f, w, g.rules[i], k) by {
            let r = g.rules[i];
            let syms = r.rhs.skip(k + 1);
            let rest = first_of(f, syms);
            assert forall|u: usize| u != EPSILON && #[trigger] rest.contains(u) implies w.contains(
                (r.rhs[k], u),
            ) by {
                let j = choose|j: int|
                    0 <= j < syms.len() && nullable_upto(f, syms, j) && #[trigger] f.contains(
                        (syms[j], u),
                    );
                lemma_first_terminals(g, syms[j], u);
            }
            assert forall|u: usize| #[trigger] w.contains((r.lhs, u)) implies w.contains(
                (r.rhs[k], u),
            ) by {}
        }
    }
    lemma_follow_least(g, f, w);
    assert(w.contains((x, t)));
}

// ---------------------------------------------------------------------------
// Tables of sets
// ---------------------------------------------------------------------------

/// The models of a table of sets.
pub open spec fn set_views(sets: Seq<BTreeSet<usize>>) -> Seq<Set<usize>> {
    sets.map_values(|s: BTreeSet<usize>| s@)
}

/// The relation that a table of sets, one for each symbol, stands for.
pub open spec fn relation(sets: Seq<Set<usize>>) -> Relation {
    Set::new(|p: (usize, usize)| p.0 < sets.len() && sets[p.0 as int].contains(p.1))
}

/// The terminals below `n`, and [`EPSILON`].
pub open spec fn universe(n: nat) -> Set<usize>
    decreases n,
{
    if n == 0 {
        set![EPSILON]
    } else {
        universe((n - 1) as nat).insert((n - 1) as usize)
    }
}

/// Whether the table holds symbols below `n` and [`EPSILON`] only.
pub open spec fn bounded(sets: Seq<Set<usize>>, n: nat) -> bool {
    forall|i: int, t: usize|
        0 <= i < sets.len() && #[trigger] sets[i].contains(t) ==> t < n || t == EPSILON
}

/// How many entries a table holds.
pub open spec fn size(sets: Seq<Set<usize>>) -> nat
    decreases sets.len(),
{
    if sets.len() == 0 {
        0
    } else {
        size(sets.drop_last()) + sets.last().len()
    }
}

proof fn lemma_universe(n: nat)
    requires
        n <= usize::MAX,
    ensures
        universe(n).finite(),
        universe(n).len() <= n + 1,
        forall|t: usize| #[trigger] universe(n).contains(t) <==> t < n || t == EPSILON,
    decreases n,
{
    if n > 0 {
        lemma_universe((n - 1) as nat);
    }
}

proof fn lemma_bounded_set(s: Set<usize>, n: nat)
    requires
        n <= usize::MAX,
        forall|t: usize| #[trigger] s.contains(t) ==> t < n || t == EPSILON,
    ensures
        s.finite(),
        s.len() <= n + 1,
{
    lemma_universe(n);
    assert(s.subset_of(universe(n)));
    vstd::set_lib::lemma_set_subset_finite(universe(n), s);
    vstd::set_lib::lemma_len_subset(s, universe(n));
}

proof fn lemma_size_bound(sets: Seq<Set<usize>>, n: nat)
    requires
        n <= usize::MAX,
        bounded(sets, n),
    ensures
        size(sets) <= sets.len() * (n + 1),
    decreases sets.len(),
{
    if sets.len() > 0 {
        let rest = sets.drop_last();
        assert(bounded(rest, n)) by {
            assert forall|i: int, t: usize|
                0 <= i < rest.len() && #[trigger] rest[i].contains(t) implies t < n || t
                == EPSILON by {
                assert(sets[i].contains(t));
            }
        }
        lemma_size_bound(rest, n);
        assert forall|t: usize| #[trigger] sets.last().contains(t) implies t < n || t == EPSILON by {
            assert(sets[sets.len() - 1].contains(t));
        }
        lemma_bounded_set(sets.last(), n);
        let a = rest.len();
        assert((a + 1) * (n + 1) == a * (n + 1) + (n + 1)) by (nonlinear_arith);
    }
}

proof fn lemma_size_insert(sets: Seq<Set<usize>>, n: nat, i: int, t: usize)
    requires
        n <= usize::MAX,
        bounded(sets, n),
        0 <= i < sets.len(),
        !sets[i].contains(t),
    ensures
        size(sets.update(i, sets[i].insert(t))) == size(sets) + 1,
    decreases sets.len(),
{
    let next = sets.update(i, sets[i].insert(t));
    let rest = sets.drop_last();
    assert forall|j: int, u: usize| 0 <= j < rest.len() && #[trigger] rest[j].contains(u) implies u
        < n || u == EPSILON by {
        assert(sets[j].contains(u));
    }
    if i == sets.len() - 1 {
        assert(next.drop_last() =~= rest);
        assert forall|u: usize| #[trigger] sets[i].contains(u) implies u < n || u == EPSILON by {}
        lemma_bounded_set(sets[i], n);
    } else {
        lemma_size_insert(rest, n, i, t);
        assert(next.drop_last() =~= rest.update(i, rest[i].insert(t)));
        assert(next.last() == sets.last());
    }
}

/// Whether the table `after` holds all that `before` holds.
pub open spec fn grown(before: Seq<Set<usize>>, after: Seq<Set<usize>>) -> bool {
    &&& before.len() == after.len()
    &&& forall|i: int| 0 <= i < before.len() ==> (#[trigger] before[i]).subset_of(after[i])
}

/// Whether a step went from one table to another: the table keeps its bound and grows, in
/// size too where the step reports a change, and stays the same where it reports none.
pub open spec fn stepped(
    before: Seq<Set<usize>>,
    after: Seq<Set<usize>>,
    n: nat,
    changed: bool,
) -> bool {
    &&& bounded(after, n)
    &&& grown(before, after)
    &&& changed ==> size(before) < size(after)
    &&& !changed ==> before == after
}

proof fn lemma_stepped_trans(
    a: Seq<Set<usize>>,
    b: Seq<Set<usize>>,
    c: Seq<Set<usize>>,
    n: nat,
    x: bool,
    y: bool,
)
    requires
        stepped(a, b, n, x),
        stepped(b, c, n, y),
    ensures
        stepped(a, c, n, x || y),
{
    assert forall|i: int| 0 <= i < a.len() implies (#[trigger] a[i]).subset_of(c[i]) by {
        assert(b[i].subset_of(c[i]));
    }
}

/// Puts `t` into the set of the symbol `i`. The result says whether it is new there.
fn put(sets: &mut Vec<BTreeSet<usize>>, i: usize, t: usize, Ghost(n): Ghost<nat>) -> (new: bool)
    requires
        i < old(sets)@.len(),
        n <= usize::MAX,
        t < n || t == EPSILON,
        bounded(set_views(old(sets)@), n),
    ensures
        set_views(final(sets)@) == set_views(old(sets)@).update(
            i as int,
            set_views(old(sets)@)[i as int].insert(t),
        ),
        new == !set_views(old(sets)@)[i as int].contains(t),
        stepped(set_views(old(sets)@), set_views(final(sets)@), n, new),
{
    let new: bool = sets[i].insert(t);
    proof {
        let a = set_views(old(sets)@);
        let b = set_views(sets@);
        assert(b =~= a.update(i as int, a[i as int].insert(t)));
        if new {
            lemma_size_insert(a, n, i as int, t);
        } else {
            assert(a[i as int].insert(t) =~= a[i as int]);
            assert(b =~= a);
        }
    }
    new
}

/// Puts all terminals of `from` into the set of the symbol `i`. The result says whether
/// one of them is new there.
fn put_all(
    sets: &mut Vec<BTreeSet<usize>>,
    i: usize,
    from: &BTreeSet<usize>,
    n: usize,
) -> (changed: bool)
    requires
        i < old(sets)@.len(),
        bounded(set_views(old(sets)@), n as nat),
        forall|t: usize| #[trigger] from@.contains(t) ==> t < n || t == EPSILON,
    ensures
        stepped(set_views(old(sets)@), set_views(final(sets)@), n as nat, changed),
        forall|j: int, t: usize|
            0 <= j < old(sets)@.len() && #[trigger] set_views(final(sets)@)[j].contains(t) ==> {
                ||| set_views(old(sets)@)[j].contains(t)
                ||| j == i && from@.contains(t) && t != EPSILON
            },
        forall|t: usize| #[trigger]
            from@.contains(t) && t != EPSILON ==> set_views(final(sets)@)[i as int].contains(t),
{
    let ghost a = set_views(sets@);
    let mut changed: bool = false;
    let mut t: usize = 0;
    while t < n
        invariant
            t <= n,
            i < sets@.len(),
            a == set_views(old(sets)@),
            forall|t: usize| #[trigger] from@.contains(t) ==> t < n || t == EPSILON,
            bounded(set_views(sets@), n as nat),
            stepped(a, set_views(sets@), n as nat, changed),
            forall|j: int, u: usize|
                0 <= j < a.len() && #[trigger] set_views(sets@)[j].contains(u) ==> {
                    ||| a[j].contains(u)
                    ||| j == i && from@.contains(u) && u != EPSILON
                },
            forall|u: usize|
                u < t && #[trigger] from@.contains(u) ==> set_views(sets@)[i as int].contains(u),
        decreases n - t,
    {
        if from.contains(&t) {
            let ghost b = set_views(sets@);
            let new: bool = put(sets, i, t, Ghost(n as nat));
            proof {
                lemma_stepped_trans(a, b, set_views(sets@), n as nat, changed, new);
            }
            changed = changed || new;
        }
        t += 1;
    }
    changed
}

// ---------------------------------------------------------------------------
// Computing FIRST
// ---------------------------------------------------------------------------

/// Adds to the table what it must hold by the rule. The result says whether anything was
/// new.
fn first_step(
    rule: &Rule,
    sets: &mut Vec<BTreeSet<usize>>,
    Ghost(f): Ghost<Relation>,
) -> (changed: bool)
    requires
        rule.lhs < old(sets)@.len(),
        forall|k: int| 0 <= k < rule.rhs@.len() ==> (#[trigger] rule.rhs@[k]) < old(sets)@.len(),
        bounded(set_views(old(sets)@), old(sets)@.len()),
        first_closed_rule(f, rule@),
        relation(set_views(old(sets)@)).subset_of(f),
    ensures
        stepped(set_views(old(sets)@), set_views(final(sets)@), old(sets)@.len(), changed),
        relation(set_views(final(sets)@)).subset_of(f),
        !changed ==> first_closed_rule(relation(set_views(final(sets)@)), rule@),
{
    let n: usize = sets.len();
    let ghost a = set_views(sets@);
    let mut changed: bool = false;
    let mut nullable: bool = true;
    let mut k: usize = 0;
    while nullable && k < rule.rhs.len()
        invariant
            k <= rule.rhs@.len(),
            n == sets@.len(),
            a == set_views(old(sets)@),
            n == a.len(),
            rule.lhs < n,
            forall|k: int| 0 <= k < rule.rhs@.len() ==> (#[trigger] rule.rhs@[k]) < n,
            first_closed_rule(f, rule@),
            relation(set_views(sets@)).subset_of(f),
            bounded(set_views(sets@), n as nat),
            stepped(a, set_views(sets@), n as nat, changed),
            nullable ==> nullable_upto(relation(set_views(sets@)), rule.rhs@, k as int),
            !nullable && !changed ==> k > 0 && !relation(a).contains(
                (rule.rhs@[k - 1], EPSILON),
            ),
            !changed ==> forall|j: int, t: usize|
                0 <= j < k && t != EPSILON && #[trigger] relation(a).contains((rule.rhs@[j], t))
                    ==> relation(a).contains((rule.lhs, t)),
        decreases rule.rhs@.len() - k, (if nullable { 1int } else { 0 }),
    {
        let sym: usize = rule.rhs[k];
        let ghost b = set_views(sets@);
        let set: BTreeSet<usize> = sets[sym].clone();
        proof {
            assert(set@ == b[sym as int]);
        }
        let new: bool = put_all(sets, rule.lhs, &set, n);
        proof {
            let c = set_views(sets@);
            lemma_stepped_trans(a, b, c, n as nat, changed, new);
            assert(nullable_upto(f, rule@.rhs, k as int));
            assert forall|p: (usize, usize)| #[trigger] relation(c).contains(p) implies f.contains(
                p,
            ) by {
                if !relation(b).contains(p) {
                    assert(c[p.0 as int].contains(p.1));
                    assert(relation(b).contains((sym, p.1)));
                    assert(f.contains((rule@.rhs[k as int], p.1)));
                }
            }
            assert forall|i: int| 0 <= i < k + 1 && set@.contains(EPSILON) implies relation(
                c,
            ).contains((#[trigger] rule.rhs@[i], EPSILON)) by {
                if i < k {
                    assert(relation(b).contains((rule.rhs@[i], EPSILON)));
                }
                assert(b[rule.rhs@[i] as int].contains(EPSILON));
            }
            if !changed && !new {
                assert forall|j: int, t: usize|
                    0 <= j < k + 1 && t != EPSILON && #[trigger] relation(a).contains(
                        (rule.rhs@[j], t),
                    ) implies relation(a).contains((rule.lhs, t)) by {
                    if j == k {
                        assert(set@.contains(t));
                        assert(c[rule.lhs as int].contains(t));
                    }
                }
            }
        }
        changed = changed || new;
        if !set.contains(&EPSILON) {
            nullable = false;
        }
        k += 1;
    }
    let ghost b = set_views(sets@);
    if nullable {
        let new: bool = put(sets, rule.lhs, EPSILON, Ghost(n as nat));
        proof {
            let c = set_views(sets@);
            lemma_stepped_trans(a, b, c, n as nat, changed, new);
            assert(nullable_upto(f, rule@.rhs, rule@.rhs.len() as int));
            assert forall|p: (usize, usize)| #[trigger] relation(c).contains(p) implies f.contains(
                p,
            ) by {
                if !relation(b).contains(p) {
                    assert(c[p.0 as int].contains(p.1));
                    assert(p == (rule.lhs, EPSILON));
                }
            }
        }
        changed = changed || new;
    }
    proof {
        if !changed {
            let r = relation(a);
            assert(set_views(sets@) == a);
            if !nullable {
                assert forall|j: int| k <= j <= rule@.rhs.len() implies !nullable_upto(
                    r,
                    rule@.rhs,
                    j,
                ) by {
                    assert(!r.contains((rule@.rhs[k - 1], EPSILON)));
                }
            } else {
                assert(r.contains((rule.lhs, EPSILON)));
            }
            assert forall|j: int, t: usize|
                0 <= j < rule@.rhs.len() && nullable_upto(r, rule@.rhs, j) && t != EPSILON
                    && #[trigger] r.contains((rule@.rhs[j], t)) implies r.contains(
                (rule@.lhs, t),
            ) by {
                assert(j < k);
                assert(r.contains((rule.rhs@[j], t)));
            }
        }
    }
    changed
}

/// The table of FIRST: of each symbol of the grammar, its set.
pub fn first_table(g: &Grammar) -> (sets: Vec<BTreeSet<usize>>)
    requires
        wf(g@),
    ensures
        sets@.len() == g@.symbols.len(),
        bounded(set_views(sets@), g@.symbols.len()),
        relation(set_views(sets@)) == first(g@),
{
    let n: usize = g.symbols.len();
    let ghost ff = first(g@);
    proof {
        lemma_first_closed(g@);
    }
    let mut sets: Vec<BTreeSet<usize>> = Vec::new();
    let mut i: usize = 0;
    while i < n
        invariant
            i <= n,
            n == g@.symbols.len(),
            sets@.len() == i,
            forall|j: int, t: usize|
                0 <= j < i ==> (#[trigger] set_views(sets@)[j].contains(t) <==> t == j
                    && g@.terminals.contains(t)),
        decreases n - i,
    {
        let mut set: BTreeSet<usize> = BTreeSet::new();
        if g.is_terminal(i) {
            set.insert(i);
        }
        let ghost before = sets@;
        sets.push(set);
        proof {
            assert forall|j: int, t: usize| 0 <= j < i + 1 implies (#[trigger] set_views(
                sets@,
            )[j].contains(t) <==> t == j && g@.terminals.contains(t)) by {
                assert(set_views(sets@)[j] == sets@[j]@);
                if j < i {
                    assert(set_views(before)[j].contains(t) <==> t == j && g@.terminals.contains(
                        t,
                    ));
                }
            }
        }
        i += 1;
    }
    let mut changed: bool = true;
    while changed
        invariant
            n == g@.symbols.len(),
            n == sets@.len(),
            wf(g@),
            ff == first(g@),
            first_closed(g@, ff),
            bounded(set_views(sets@), n as nat),
            relation(set_views(sets@)).subset_of(ff),
            forall|t: usize| #[trigger]
                g@.terminals.contains(t) ==> relation(set_views(sets@)).contains((t, t)),
            !changed ==> forall|i: int|
                0 <= i < g@.rules.len() ==> first_closed_rule(
                    relation(set_views(sets@)),
                    #[trigger] g@.rules[i],
                ),
        decreases n * (n + 1) - size(set_views(sets@)), (if changed { 1int } else { 0 }),
    {
        let ghost a = set_views(sets@);
        proof {
            lemma_size_bound(a, n as nat);
        }
        changed = false;
        let mut r: usize = 0;
        while r < g.rules.len()
            invariant
                r <= g.rules@.len(),
                n == g@.symbols.len(),
                n == sets@.len(),
                wf(g@),
                ff == first(g@),
                first_closed(g@, ff),
                bounded(set_views(sets@), n as nat),
                relation(set_views(sets@)).subset_of(ff),
                stepped(a, set_views(sets@), n as nat, changed),
                !changed ==> forall|i: int|
                    0 <= i < r ==> first_closed_rule(relation(a), #[trigger] g@.rules[i]),
            decreases g.rules@.len() - r,
        {
            let ghost b = set_views(sets@);
            let rule: &Rule = &g.rules[r];
            proof {
                assert(rule@ == g@.rules[r as int]);
                assert(wf_rule(g@, rule@));
                assert forall|k: int| 0 <= k < rule.rhs@.len() implies (#[trigger] rule.rhs@[k])
                    < sets@.len() by {
                    assert(is_symbol(g@, rule@.rhs[k]));
                }
            }
            let new: bool = first_step(rule, &mut sets, Ghost(ff));
            proof {
                lemma_stepped_trans(a, b, set_views(sets@), n as nat, changed, new);
            }
            changed = changed || new;
            r += 1;
        }
        proof {
            lemma_size_bound(set_views(sets@), n as nat);
            assert forall|t: usize| #[trigger] g@.terminals.contains(t) implies relation(
                set_views(sets@),
            ).contains((t, t)) by {
                assert(relation(a).contains((t, t)));
                assert(a[t as int].subset_of(set_views(sets@)[t as int]));
            }
        }
    }
    proof {
        assert(first_closed(g@, relation(set_views(sets@))));
        lemma_first_least(g@, relation(set_views(sets@)));
        assert(relation(set_views(sets@)) =~= ff);
    }
    sets
}

/// What the symbols can begin with, where `sets` is the table of FIRST. Of what is no
/// symbol nothing is known.
pub fn first_of_symbols(sets: &Vec<BTreeSet<usize>>, symbols: &[usize]) -> (result: BTreeSet<usize>)
    requires
        bounded(set_views(sets@), sets@.len()),
    ensures
        result@ == first_of(relation(set_views(sets@)), symbols@),
{
    let n: usize = sets.len();
    let ghost f = relation(set_views(sets@));
    let mut result: BTreeSet<usize> = BTreeSet::new();
    let mut k: usize = 0;
    while k < symbols.len()
        invariant
            k <= symbols@.len(),
            n == sets@.len(),
            f == relation(set_views(sets@)),
            bounded(set_views(sets@), n as nat),
            nullable_upto(f, symbols@, k as int),
            forall|t: usize| #[trigger]
                result@.contains(t) <==> t != EPSILON && exists|j: int|
                    0 <= j < k && #[trigger] f.contains((symbols@[j], t)),
        decreases symbols@.len() - k,
    {
        let sym: usize = symbols[k];
        let mut nullable: bool = false;
        if sym < n {
            let ghost before = result@;
            let mut t: usize = 0;
            while t < n
                invariant
                    t <= n,
                    sym < n,
                    n == sets@.len(),
                    f == relation(set_views(sets@)),
                    forall|u: usize| #[trigger]
                        result@.contains(u) <==> before.contains(u) || (u < t && f.contains(
                            (sym, u),
                        )),
                decreases n - t,
            {
                proof {
                    assert(set_views(sets@)[sym as int] == sets@[sym as int]@);
                }
                if sets[sym].contains(&t) {
                    result.insert(t);
                }
                t += 1;
            }
            nullable = sets[sym].contains(&EPSILON);
            proof {
                assert(set_views(sets@)[sym as int] == sets@[sym as int]@);
                assert(nullable == f.contains((sym, EPSILON)));
                assert forall|u: usize| #[trigger] result@.contains(u) implies u != EPSILON
                    && exists|j: int|
                    0 <= j < k + 1 && #[trigger] f.contains((symbols@[j], u)) by {
                    if before.contains(u) {
                        let j = choose|j: int|
                            0 <= j < k && #[trigger] f.contains((symbols@[j], u));
                        assert(0 <= j < k + 1);
                    } else {
                        assert(f.contains((symbols@[k as int], u)));
                    }
                }
                assert forall|u: usize|
                    u != EPSILON && (exists|j: int|
                        0 <= j < k + 1 && #[trigger] f.contains(
                            (symbols@[j], u),
                        )) implies #[trigger] result@.contains(u) by {
                    let j = choose|j: int|
                        0 <= j < k + 1 && #[trigger] f.contains((symbols@[j], u));
                    if j == k {
                        assert(set_views(sets@)[sym as int].contains(u));
                        assert(u < n);
                    }
                }
            }
        } else {
            proof {
                assert forall|u: usize|
                    u != EPSILON && (exists|j: int|
                        0 <= j < k + 1 && #[trigger] f.contains(
                            (symbols@[j], u),
                        )) implies #[trigger] result@.contains(u) by {
                    let j = choose|j: int|
                        0 <= j < k + 1 && #[trigger] f.contains((symbols@[j], u));
                    assert(j < k);
                }
                assert forall|u: usize| #[trigger] result@.contains(u) implies u != EPSILON
                    && exists|j: int|
                    0 <= j < k + 1 && #[trigger] f.contains((symbols@[j], u)) by {
                    let j = choose|j: int|
                        0 <= j < k && #[trigger] f.contains((symbols@[j], u));
                    assert(0 <= j < k + 1);
                }
            }
        }
        if !nullable {
            proof {
                assert(!f.contains((symbols@[k as int], EPSILON)));
                lemma_first_of_prefix(f, symbols@, k as int);
                assert(result@ =~= first_of(f, symbols@));
            }
            return result;
        }
        k += 1;
    }
    result.insert(EPSILON);
    proof {
        assert forall|t: usize| result@.contains(t) <==> first_of(f, symbols@).contains(t) by {
            if t != EPSILON {
                if result@.contains(t) {
                    let j = choose|j: int|
                        0 <= j < k && #[trigger] f.contains((symbols@[j], t));
                    assert(nullable_upto(f, symbols@, j));
                }
            }
        }
        assert(result@ =~= first_of(f, symbols@));
    }
    result
}

/// Behind a symbol that may not be empty, nothing begins the string.
proof fn lemma_first_of_prefix(f: Relation, syms: Seq<usize>, k: int)
    requires
        0 <= k < syms.len(),
        nullable_upto(f, syms, k),
        !f.contains((syms[k], EPSILON)),
    ensures
        forall|t: usize| #[trigger]
            first_of(f, syms).contains(t) <==> t != EPSILON && exists|j: int|
                0 <= j < k + 1 && #[trigger] f.contains((syms[j], t)),
{
    assert forall|t: usize| #[trigger]
        first_of(f, syms).contains(t) <==> t != EPSILON && exists|j: int|
            0 <= j < k + 1 && #[trigger] f.contains((syms[j], t)) by {
        if t != EPSILON {
            if first_of(f, syms).contains(t) {
                let j = choose|j: int|
                    0 <= j < syms.len() && nullable_upto(f, syms, j) && #[trigger] f.contains(
                        (syms[j], t),
                    );
                if j > k {
                    assert(f.contains((syms[k], EPSILON)));
                }
            }
            if exists|j: int| 0 <= j < k + 1 && #[trigger] f.contains((syms[j], t)) {
                let j = choose|j: int| 0 <= j < k + 1 && #[trigger] f.contains((syms[j], t));
                assert(nullable_upto(f, syms, j));
            }
        } else {
            if nullable_upto(f, syms, syms.len() as int) {
                assert(f.contains((syms[k], EPSILON)));
            }
        }
    }
}

// ---------------------------------------------------------------------------
// Computing FOLLOW
// ---------------------------------------------------------------------------

/// Whether no set of the table holds [`EPSILON`].
pub open spec fn without_epsilon(sets: Seq<Set<usize>>) -> bool {
    forall|i: int| 0 <= i < sets.len() ==> !(#[trigger] sets[i]).contains(EPSILON)
}

proof fn lemma_first_of_bounded(sets: Seq<Set<usize>>, n: nat, syms: Seq<usize>)
    requires
        bounded(sets, n),
    ensures
        forall|t: usize| #[trigger]
            first_of(relation(sets), syms).contains(t) ==> t < n || t == EPSILON,
{
    let f = relation(sets);
    assert forall|t: usize| #[trigger] first_of(f, syms).contains(t) implies t < n || t
        == EPSILON by {
        if t != EPSILON {
            let k = choose|k: int|
                0 <= k < syms.len() && nullable_upto(f, syms, k) && #[trigger] f.contains(
                    (syms[k], t),
                );
            assert(sets[syms[k] as int].contains(t));
        }
    }
}

/// Adds to the table what it must hold of the symbol at `k` by the rule, where `firsts`
/// is the table of FIRST. The result says whether anything was new.
fn follow_step(
    rule: &Rule,
    k: usize,
    firsts: &Vec<BTreeSet<usize>>,
    sets: &mut Vec<BTreeSet<usize>>,
    Ghost(w): Ghost<Relation>,
) -> (changed: bool)
    requires
        k < rule.rhs@.len(),
        rule.lhs < old(sets)@.len(),
        rule.rhs@[k as int] < old(sets)@.len(),
        firsts@.len() == old(sets)@.len(),
        bounded(set_views(firsts@), firsts@.len()),
        bounded(set_views(old(sets)@), old(sets)@.len()),
        without_epsilon(set_views(old(sets)@)),
        follow_closed_at(relation(set_views(firsts@)), w, rule@, k as int),
        relation(set_views(old(sets)@)).subset_of(w),
    ensures
        stepped(set_views(old(sets)@), set_views(final(sets)@), old(sets)@.len(), changed),
        without_epsilon(set_views(final(sets)@)),
        relation(set_views(final(sets)@)).subset_of(w),
        !changed ==> follow_closed_at(
            relation(set_views(firsts@)),
            relation(set_views(final(sets)@)),
            rule@,
            k as int,
        ),
{
    let n: usize = sets.len();
    let ghost f = relation(set_views(firsts@));
    let ghost a = set_views(sets@);
    let sym: usize = rule.rhs[k];
    proof {
        assert(rule.rhs@.len() == rule.rhs.len());
    }
    let rest: &[usize] = vstd::slice::slice_subrange(
        rule.rhs.as_slice(),
        k + 1,
        rule.rhs.len(),
    );
    let begin: BTreeSet<usize> = first_of_symbols(firsts, rest);
    proof {
        assert(rest@ =~= rule@.rhs.skip(k + 1));
        lemma_first_of_bounded(set_views(firsts@), n as nat, rest@);
    }
    let mut changed: bool = put_all(sets, sym, &begin, n);
    let ghost b = set_views(sets@);
    proof {
        assert forall|p: (usize, usize)| #[trigger] relation(b).contains(p) implies w.contains(
            p,
        ) by {
            assert(b[p.0 as int].contains(p.1));
            if !relation(a).contains(p) {
                assert(begin@.contains(p.1));
            }
        }
        assert forall|i: int| 0 <= i < b.len() implies !(#[trigger] b[i]).contains(EPSILON) by {
            assert(!a[i].contains(EPSILON));
        }
    }
    if begin.contains(&EPSILON) {
        let behind: BTreeSet<usize> = sets[rule.lhs].clone();
        proof {
            assert(behind@ == b[rule.lhs as int]);
        }
        let new: bool = put_all(sets, sym, &behind, n);
        proof {
            let c = set_views(sets@);
            lemma_stepped_trans(a, b, c, n as nat, changed, new);
            assert forall|p: (usize, usize)| #[trigger] relation(c).contains(p) implies w.contains(
                p,
            ) by {
                assert(c[p.0 as int].contains(p.1));
                if !relation(b).contains(p) {
                    assert(relation(b).contains((rule@.lhs, p.1)));
                    assert(w.contains((rule@.lhs, p.1)));
                }
            }
            assert forall|i: int| 0 <= i < c.len() implies !(#[trigger] c[i]).contains(
                EPSILON,
            ) by {
                assert(!b[i].contains(EPSILON));
            }
            if !changed && !new {
                assert forall|t: usize| #[trigger] relation(c).contains(
                    (rule@.lhs, t),
                ) implies relation(c).contains((rule@.rhs[k as int], t)) by {
                    assert(!b[rule.lhs as int].contains(EPSILON));
                    assert(behind@.contains(t));
                }
            }
        }
        changed = changed || new;
    }
    proof {
        if !changed {
            let c = set_views(sets@);
            assert(c == a);
            let r = first_of(f, rule@.rhs.skip(k + 1));
            assert forall|t: usize| t != EPSILON && #[trigger] r.contains(t) implies relation(
                c,
            ).contains((rule@.rhs[k as int], t)) by {
                assert(begin@.contains(t));
                assert(b[sym as int].contains(t));
            }
        }
    }
    changed
}

/// Adds to the table what it must hold by the rule. The result says whether anything was
/// new.
fn follow_rule_step(
    g: &Grammar,
    r: usize,
    firsts: &Vec<BTreeSet<usize>>,
    sets: &mut Vec<BTreeSet<usize>>,
    Ghost(w): Ghost<Relation>,
) -> (changed: bool)
    requires
        wf(g@),
        r < g.rules@.len(),
        g@.symbols.len() == old(sets)@.len(),
        firsts@.len() == old(sets)@.len(),
        bounded(set_views(firsts@), firsts@.len()),
        bounded(set_views(old(sets)@), old(sets)@.len()),
        without_epsilon(set_views(old(sets)@)),
        follow_closed(g@, relation(set_views(firsts@)), w),
        relation(set_views(old(sets)@)).subset_of(w),
    ensures
        stepped(set_views(old(sets)@), set_views(final(sets)@), old(sets)@.len(), changed),
        without_epsilon(set_views(final(sets)@)),
        relation(set_views(final(sets)@)).subset_of(w),
        !changed ==> forall|k: int|
            0 <= k < g@.rules[r as int].rhs.len() && g@.nonterminals.contains(
                #[trigger] g@.rules[r as int].rhs[k],
            ) ==> follow_closed_at(
                relation(set_views(firsts@)),
                relation(set_views(final(sets)@)),
                g@.rules[r as int],
                k,
            ),
{
    let ghost a = set_views(sets@);
    let ghost f = relation(set_views(firsts@));
    let ghost n = sets@.len();
    let rule: &Rule = &g.rules[r];
    proof {
        assert(rule@ == g@.rules[r as int]);
        assert(wf_rule(g@, rule@));
    }
    let mut changed: bool = false;
    let mut k: usize = 0;
    while k < rule.rhs.len()
        invariant
            k <= rule.rhs@.len(),
            wf(g@),
            r < g.rules@.len(),
            rule@ == g@.rules[r as int],
            wf_rule(g@, rule@),
            n == sets@.len(),
            n == g@.symbols.len(),
            n == firsts@.len(),
            f == relation(set_views(firsts@)),
            bounded(set_views(firsts@), n),
            follow_closed(g@, f, w),
            bounded(set_views(sets@), n),
            without_epsilon(set_views(sets@)),
            relation(set_views(sets@)).subset_of(w),
            stepped(a, set_views(sets@), n, changed),
            !changed ==> forall|j: int|
                0 <= j < k && g@.nonterminals.contains(#[trigger] g@.rules[r as int].rhs[j])
                    ==> follow_closed_at(f, relation(a), g@.rules[r as int], j),
        decreases rule.rhs@.len() - k,
    {
        let ghost b = set_views(sets@);
        proof {
            assert(is_symbol(g@, rule@.rhs[k as int]));
            assert(rule.rhs@[k as int] == g@.rules[r as int].rhs[k as int]);
        }
        if g.is_nonterminal(rule.rhs[k]) {
            let new: bool = follow_step(rule, k, firsts, sets, Ghost(w));
            proof {
                lemma_stepped_trans(a, b, set_views(sets@), n, changed, new);
            }
            changed = changed || new;
        }
        k += 1;
    }
    changed
}

/// The table of FOLLOW, where `firsts` is the table of FIRST: of each symbol of the
/// grammar, its set.
pub fn follow_table(g: &Grammar, firsts: &Vec<BTreeSet<usize>>) -> (sets: Vec<BTreeSet<usize>>)
    requires
        wf(g@),
        firsts@.len() == g@.symbols.len(),
        bounded(set_views(firsts@), firsts@.len()),
    ensures
        sets@.len() == g@.symbols.len(),
        bounded(set_views(sets@), g@.symbols.len()),
        without_epsilon(set_views(sets@)),
        relation(set_views(sets@)) == follow(g@, relation(set_views(firsts@))),
{
    let n: usize = g.symbols.len();
    let ghost f = relation(set_views(firsts@));
    let ghost ww = follow(g@, f);
    proof {
        lemma_follow_closed(g@, f);
    }
    let mut sets: Vec<BTreeSet<usize>> = Vec::new();
    let mut i: usize = 0;
    while i < n
        invariant
            i <= n,
            sets@.len() == i,
            forall|j: int, t: usize| 0 <= j < i ==> !(#[trigger] set_views(sets@)[j].contains(t)),
        decreases n - i,
    {
        let ghost before = sets@;
        sets.push(BTreeSet::new());
        proof {
            assert forall|j: int, t: usize| 0 <= j < i + 1 implies !(#[trigger] set_views(
                sets@,
            )[j].contains(t)) by {
                if j < i {
                    assert(!set_views(before)[j].contains(t));
                }
            }
        }
        i += 1;
    }
    match g.start_symbol {
        Some(start) => {
            let ghost b = set_views(sets@);
            put(&mut sets, start, EOF_TOKEN, Ghost(n as nat));
        },
        None => {},
    }
    put(&mut sets, g.augmented_start, EOF_TOKEN, Ghost(n as nat));
    let mut changed: bool = true;
    while changed
        invariant
            n == g@.symbols.len(),
            n == sets@.len(),
            n == firsts@.len(),
            wf(g@),
            f == relation(set_views(firsts@)),
            ww == follow(g@, f),
            follow_closed(g@, f, ww),
            bounded(set_views(firsts@), n as nat),
            bounded(set_views(sets@), n as nat),
            without_epsilon(set_views(sets@)),
            relation(set_views(sets@)).subset_of(ww),
            g@.start matches Some(s) ==> relation(set_views(sets@)).contains((s, EOF_TOKEN)),
            relation(set_views(sets@)).contains((g@.augmented_start, EOF_TOKEN)),
            !changed ==> forall|i: int, k: int|
                #![trigger g@.rules[i].rhs[k]]
                0 <= i < g@.rules.len() && 0 <= k < g@.rules[i].rhs.len()
                    && g@.nonterminals.contains(g@.rules[i].rhs[k]) ==> follow_closed_at(
                    f,
                    relation(set_views(sets@)),
                    g@.rules[i],
                    k,
                ),
        decreases n * (n + 1) - size(set_views(sets@)), (if changed { 1int } else { 0 }),
    {
        let ghost a = set_views(sets@);
        proof {
            lemma_size_bound(a, n as nat);
        }
        changed = false;
        let mut r: usize = 0;
        while r < g.rules.len()
            invariant
                r <= g.rules@.len(),
                n == g@.symbols.len(),
                n == sets@.len(),
                n == firsts@.len(),
                wf(g@),
                f == relation(set_views(firsts@)),
                follow_closed(g@, f, ww),
                bounded(set_views(firsts@), n as nat),
                bounded(set_views(sets@), n as nat),
                without_epsilon(set_views(sets@)),
                relation(set_views(sets@)).subset_of(ww),
                stepped(a, set_views(sets@), n as nat, changed),
                !changed ==> forall|i: int, k: int|
                    #![trigger g@.rules[i].rhs[k]]
                    0 <= i < r && 0 <= k < g@.rules[i].rhs.len() && g@.nonterminals.contains(
                        g@.rules[i].rhs[k],
                    ) ==> follow_closed_at(f, relation(a), g@.rules[i], k),
            decreases g.rules@.len() - r,
        {
            let ghost b = set_views(sets@);
            let new: bool = follow_rule_step(g, r, firsts, &mut sets, Ghost(ww));
            proof {
                lemma_stepped_trans(a, b, set_views(sets@), n as nat, changed, new);
            }
            changed = changed || new;
            r += 1;
        }
        proof {
            lemma_size_bound(set_views(sets@), n as nat);
            let c = set_views(sets@);
            assert(a[g@.augmented_start as int].subset_of(c[g@.augmented_start as int]));
            match g@.start {
                Some(st) => {
                    assert(a[st as int].subset_of(c[st as int]));
                },
                None => {},
            }
        }
    }
    proof {
        assert(follow_closed(g@, f, relation(set_views(sets@))));
        lemma_follow_least(g@, f, relation(set_views(sets@)));
        assert(relation(set_views(sets@)) =~= ww);
    }
    sets
}

} // verus!
