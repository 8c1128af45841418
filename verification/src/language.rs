//! The language of a grammar: derivations as trees.

use crate::grammar::{complete, is_symbol, wf, wf_rule, GrammarView, EOF_TOKEN};
use crate::sets::{
    first, first_closed, first_closed_rule, first_of, follow, follow_closed, follow_closed_at,
    lemma_first_closed, lemma_first_least, lemma_follow_closed, lemma_follow_least,
    lemma_follow_terminals, nullable_upto, EPSILON,
};
use vstd::prelude::*;

verus! {

/// A derivation: a terminal, or a rule with a derivation of each symbol on its right-hand
/// side.
pub enum Tree {
    Leaf(usize),
    Node(int, Seq<Tree>),
}

/// The symbol that is derived from.
pub open spec fn root(g: GrammarView, t: Tree) -> usize {
    match t {
        Tree::Leaf(x) => x,
        Tree::Node(r, _) => g.rules[r].lhs,
    }
}

/// The symbols that are derived from, one after the other.
pub open spec fn roots(g: GrammarView, ts: Seq<Tree>) -> Seq<usize> {
    Seq::new(ts.len(), |i: int| root(g, ts[i]))
}

/// Whether the tree is a derivation in the grammar.
pub open spec fn derived(g: GrammarView, t: Tree) -> bool
    decreases t,
{
    match t {
        Tree::Leaf(x) => g.terminals.contains(x),
        Tree::Node(r, kids) => 0 <= r < g.rules.len() && roots(g, kids) == g.rules[r].rhs
            && all_derived(g, kids),
    }
}

/// Whether all trees are derivations in the grammar.
pub open spec fn all_derived(g: GrammarView, ts: Seq<Tree>) -> bool
    decreases ts,
{
    forall|i: int| 0 <= i < ts.len() ==> derived(g, #[trigger] ts[i])
}

/// The terminals that are derived.
pub open spec fn fringe(t: Tree) -> Seq<usize>
    decreases t,
{
    match t {
        Tree::Leaf(x) => seq![x],
        Tree::Node(_, kids) => fringes(kids),
    }
}

/// The terminals that the trees derive, one after the other.
pub open spec fn fringes(ts: Seq<Tree>) -> Seq<usize>
    decreases ts,
{
    if ts.len() == 0 {
        Seq::empty()
    } else {
        fringes(ts.drop_last()) + fringe(ts.last())
    }
}

/// Whether the tree derives `w` from the start symbol.
pub open spec fn parses(g: GrammarView, t: Tree, w: Seq<usize>) -> bool {
    derived(g, t) && Some(root(g, t)) == g.start && fringe(t) == w
}

/// Whether the terminals are a sentence: there is a tree that derives them from the start
/// symbol.
pub open spec fn is_sentence(g: GrammarView, w: Seq<usize>) -> bool {
    exists|t: Tree| parses(g, t, w)
}

/// What two lists of trees derive, one after the other.
pub proof fn lemma_fringes_add(a: Seq<Tree>, b: Seq<Tree>)
    ensures
        fringes(a + b) == fringes(a) + fringes(b),
    decreases b.len(),
{
    if b.len() == 0 {
        assert(a + b =~= a);
        assert(fringes(a) + fringes(b) =~= fringes(a));
    } else {
        assert((a + b).drop_last() =~= a + b.drop_last());
        lemma_fringes_add(a, b.drop_last());
        assert(fringes(a) + (fringes(b.drop_last()) + fringe(b.last())) =~= fringes(a) + fringes(
            b.drop_last(),
        ) + fringe(b.last()));
    }
}

/// What one more tree derives is derived behind.
pub proof fn lemma_fringes_push(a: Seq<Tree>, t: Tree)
    ensures
        fringes(a.push(t)) == fringes(a) + fringe(t),
{
    assert(a.push(t).drop_last() =~= a);
}

/// In what a tree derives there is no end of the input, but for what the rule for the whole
/// input derives and for the leaf that is just that.
pub proof fn lemma_fringe_without_end(g: GrammarView, t: Tree, i: int)
    requires
        complete(g),
        derived(g, t),
        root(g, t) != g.augmented_start,
        root(g, t) != EOF_TOKEN,
        0 <= i < fringe(t).len(),
    ensures
        fringe(t)[i] != EOF_TOKEN,
    decreases t,
{
    match t {
        Tree::Leaf(x) => {},
        Tree::Node(r, kids) => {
            assert forall|k: int| 0 <= k < kids.len() implies root(g, #[trigger] kids[k])
                != EOF_TOKEN && root(g, kids[k]) != g.augmented_start by {
                assert(roots(g, kids)[k] == g.rules[r].rhs[k]);
            }
            lemma_fringes_without_end(g, kids, i);
        },
    }
}

/// In what trees derive there is no end of the input, where none of their roots is that or
/// the symbol for the whole input.
pub proof fn lemma_fringes_without_end(g: GrammarView, ts: Seq<Tree>, i: int)
    requires
        complete(g),
        all_derived(g, ts),
        forall|k: int|
            0 <= k < ts.len() ==> root(g, #[trigger] ts[k]) != EOF_TOKEN && root(g, ts[k])
                != g.augmented_start,
        0 <= i < fringes(ts).len(),
    ensures
        fringes(ts)[i] != EOF_TOKEN,
    decreases ts,
{
    let before = ts.drop_last();
    let last = ts.last();
    assert(derived(g, ts[ts.len() - 1]));
    assert(root(g, ts[ts.len() - 1]) != EOF_TOKEN);
    assert forall|k: int| 0 <= k < before.len() implies derived(g, #[trigger] before[k]) && root(
        g,
        before[k],
    ) != EOF_TOKEN && root(g, before[k]) != g.augmented_start by {
        assert(before[k] == ts[k]);
    }
    if i < fringes(before).len() {
        lemma_fringes_without_end(g, before, i);
    } else {
        lemma_fringe_without_end(g, last, i - fringes(before).len());
    }
}

/// What a derivation derives is made of terminals.
pub proof fn lemma_fringe_terminal(g: GrammarView, t: Tree, i: int)
    requires
        derived(g, t),
        0 <= i < fringe(t).len(),
    ensures
        g.terminals.contains(fringe(t)[i]),
    decreases t,
{
    match t {
        Tree::Leaf(_) => {},
        Tree::Node(_, kids) => {
            lemma_fringes_terminal(g, kids, i);
        },
    }
}

/// What derivations derive is made of terminals.
pub proof fn lemma_fringes_terminal(g: GrammarView, ts: Seq<Tree>, i: int)
    requires
        all_derived(g, ts),
        0 <= i < fringes(ts).len(),
    ensures
        g.terminals.contains(fringes(ts)[i]),
    decreases ts,
{
    let before = ts.drop_last();
    assert(derived(g, ts[ts.len() - 1]));
    assert forall|k: int| 0 <= k < before.len() implies derived(g, #[trigger] before[k]) by {
        assert(before[k] == ts[k]);
    }
    if i < fringes(before).len() {
        lemma_fringes_terminal(g, before, i);
    } else {
        lemma_fringe_terminal(g, ts.last(), i - fringes(before).len());
    }
}

// ---------------------------------------------------------------------------
// FIRST
// ---------------------------------------------------------------------------

/// Whether the tree is part of a derivation in the grammar: its leaves may be symbols of any
/// sort.
pub open spec fn partly_derived(g: GrammarView, t: Tree) -> bool
    decreases t,
{
    match t {
        Tree::Leaf(_) => true,
        Tree::Node(r, kids) => 0 <= r < g.rules.len() && roots(g, kids) == g.rules[r].rhs
            && all_partly_derived(g, kids),
    }
}

/// Whether all trees are parts of derivations in the grammar.
pub open spec fn all_partly_derived(g: GrammarView, ts: Seq<Tree>) -> bool
    decreases ts,
{
    forall|i: int| 0 <= i < ts.len() ==> partly_derived(g, #[trigger] ts[i])
}

/// A derivation is part of one.
pub proof fn lemma_partly(g: GrammarView, t: Tree)
    requires
        derived(g, t),
    ensures
        partly_derived(g, t),
    decreases t,
{
    match t {
        Tree::Leaf(_) => {},
        Tree::Node(_, kids) => {
            lemma_all_partly(g, kids);
        },
    }
}

/// Derivations are parts of derivations.
pub proof fn lemma_all_partly(g: GrammarView, ts: Seq<Tree>)
    requires
        all_derived(g, ts),
    ensures
        all_partly_derived(g, ts),
    decreases ts,
{
    assert forall|i: int| 0 <= i < ts.len() implies partly_derived(g, #[trigger] ts[i]) by {
        assert(derived(g, ts[i]));
        lemma_partly(g, ts[i]);
    }
}

/// FIRST holds of a symbol the terminal that what it derives begins with, and the empty
/// string where it derives that.
pub proof fn lemma_first_of_tree(g: GrammarView, t: Tree)
    requires
        wf(g),
        partly_derived(g, t),
    ensures
        fringe(t).len() == 0 ==> first(g).contains((root(g, t), EPSILON)),
        fringe(t).len() > 0 && g.terminals.contains(fringe(t)[0]) ==> first(g).contains(
            (root(g, t), fringe(t)[0]),
        ),
    decreases t,
{
    let f = first(g);
    lemma_first_closed(g);
    match t {
        Tree::Leaf(x) => {},
        Tree::Node(r, kids) => {
            let rhs = g.rules[r].rhs;
            lemma_first_of_trees(g, kids);
            assert(first_closed_rule(f, g.rules[r]));
            let w = fringe(t);
            if w.len() > 0 && g.terminals.contains(w[0]) {
                assert(w[0] != EPSILON);
                let k = choose|k: int|
                    0 <= k < rhs.len() && nullable_upto(f, rhs, k) && #[trigger] f.contains(
                        (rhs[k], w[0]),
                    );
                assert(f.contains((rhs[k], w[0])));
            }
        },
    }
}

/// FIRST of a list of symbols holds the terminal that what they derive begins with, and the
/// empty string where they derive that.
pub proof fn lemma_first_of_trees(g: GrammarView, ts: Seq<Tree>)
    requires
        wf(g),
        all_partly_derived(g, ts),
    ensures
        fringes(ts).len() == 0 ==> first_of(first(g), roots(g, ts)).contains(EPSILON),
        fringes(ts).len() > 0 && g.terminals.contains(fringes(ts)[0]) ==> first_of(
            first(g),
            roots(g, ts),
        ).contains(fringes(ts)[0]) && fringes(ts)[0] != EPSILON,
    decreases ts,
{
    let f = first(g);
    let w = fringes(ts);
    let xs = roots(g, ts);
    if ts.len() > 0 {
        let before = ts.drop_last();
        let ys = roots(g, before);
        let n = before.len() as int;
        assert(partly_derived(g, ts[n]));
        assert forall|i: int| 0 <= i < n implies partly_derived(g, #[trigger] before[i]) by {
            assert(before[i] == ts[i]);
        }
        assert forall|i: int| 0 <= i < n implies #[trigger] ys[i] == xs[i] by {
            assert(before[i] == ts[i]);
        }
        lemma_first_of_trees(g, before);
        lemma_first_of_tree(g, ts[n]);
        if fringes(before).len() > 0 {
            assert(w[0] == fringes(before)[0]);
            if g.terminals.contains(w[0]) {
                let k = choose|k: int|
                    0 <= k < ys.len() && nullable_upto(f, ys, k) && #[trigger] f.contains(
                        (ys[k], w[0]),
                    );
                assert(nullable_upto(f, xs, k)) by {
                    assert forall|i: int| 0 <= i < k implies f.contains(
                        (#[trigger] xs[i], EPSILON),
                    ) by {
                        assert(ys[i] == xs[i]);
                    }
                }
                assert(f.contains((xs[k], w[0])));
            }
        } else {
            assert(w =~= fringe(ts[n]));
            assert(nullable_upto(f, xs, n)) by {
                assert(nullable_upto(f, ys, n));
                assert forall|i: int| 0 <= i < n implies f.contains(
                    (#[trigger] xs[i], EPSILON),
                ) by {
                    assert(ys[i] == xs[i]);
                }
            }
            assert(xs[n] == root(g, ts[n]));
            if w.len() > 0 {
                if g.terminals.contains(w[0]) {
                    assert(f.contains((xs[n], w[0])));
                }
            } else {
                assert(nullable_upto(f, xs, xs.len() as int));
            }
        }
    }
}

/// Whether the tree derives from `x` what begins with `t`.
pub open spec fn begins_with(g: GrammarView, tr: Tree, x: usize, t: usize) -> bool {
    partly_derived(g, tr) && root(g, tr) == x && fringe(tr).len() > 0 && fringe(tr)[0] == t
}

/// Whether the tree derives nothing from `x`.
pub open spec fn vanishes(g: GrammarView, tr: Tree, x: usize) -> bool {
    partly_derived(g, tr) && root(g, tr) == x && fringe(tr).len() == 0
}

/// Whether a derivation from `x` begins with `t`.
pub open spec fn can_begin(g: GrammarView, x: usize, t: usize) -> bool {
    exists|tr: Tree| begins_with(g, tr, x, t)
}

/// Whether a derivation derives nothing from `x`.
pub open spec fn can_vanish(g: GrammarView, x: usize) -> bool {
    exists|tr: Tree| vanishes(g, tr, x)
}

/// What FIRST is to be: the terminals that derivations begin with, and the empty string
/// where one derives nothing.
spec fn first_by_trees(g: GrammarView) -> Set<(usize, usize)> {
    Set::new(
        |p: (usize, usize)|
            if p.1 == EPSILON {
                can_vanish(g, p.0)
            } else {
                g.terminals.contains(p.1) && can_begin(g, p.0, p.1)
            },
    )
}

/// Trees that derive nothing from the first `k` symbols.
proof fn lemma_vanishing(g: GrammarView, syms: Seq<usize>, k: int) -> (ts: Seq<Tree>)
    requires
        0 <= k <= syms.len(),
        nullable_upto(first_by_trees(g), syms, k),
    ensures
        ts.len() == k,
        all_partly_derived(g, ts),
        roots(g, ts) == syms.take(k),
        fringes(ts).len() == 0,
    decreases k,
{
    if k == 0 {
        let ts = Seq::<Tree>::empty();
        assert(roots(g, ts) =~= syms.take(0));
        ts
    } else {
        let before = lemma_vanishing(g, syms, k - 1);
        let x = syms[k - 1];
        assert(first_by_trees(g).contains((x, EPSILON)));
        let tr = choose|tr: Tree| vanishes(g, tr, x);
        let ts = before.push(tr);
        lemma_fringes_push(before, tr);
        assert forall|i: int| 0 <= i < ts.len() implies partly_derived(g, #[trigger] ts[i]) by {
            if i < before.len() {
                assert(ts[i] == before[i]);
            }
        }
        assert(roots(g, ts) =~= syms.take(k)) by {
            assert forall|i: int| 0 <= i < k implies roots(g, ts)[i] == syms[i] by {
                if i < k - 1 {
                    assert(roots(g, before)[i] == syms.take(k - 1)[i]);
                }
            }
        }
        ts
    }
}

/// The symbols as leaves.
spec fn leaves(syms: Seq<usize>) -> Seq<Tree> {
    Seq::new(syms.len(), |i: int| Tree::Leaf(syms[i]))
}

/// FIRST is exact: it holds of a symbol just the terminals that derivations from it begin
/// with, and the empty string just where the symbol derives that.
pub proof fn law_first_exact(g: GrammarView, x: usize, t: usize)
    requires
        wf(g),
    ensures
        first(g).contains((x, EPSILON)) <==> can_vanish(g, x),
        g.terminals.contains(t) ==> (first(g).contains((x, t)) <==> can_begin(g, x, t)),
{
    let f = first_by_trees(g);
    assert(first_closed(g, f)) by {
        assert forall|u: usize| #[trigger] g.terminals.contains(u) implies f.contains((u, u)) by {
            assert(begins_with(g, Tree::Leaf(u), u, u));
            assert(can_begin(g, u, u));
            assert(is_symbol(g, u));
            assert(u != EPSILON);
        }
        assert forall|r: int| 0 <= r < g.rules.len() implies first_closed_rule(
            f,
            #[trigger] g.rules[r],
        ) by {
            let rule = g.rules[r];
            let rhs = rule.rhs;
            assert forall|k: int, u: usize|
                0 <= k < rhs.len() && nullable_upto(f, rhs, k) && u != EPSILON
                    && #[trigger] f.contains((rhs[k], u)) implies f.contains((rule.lhs, u)) by {
                let before = lemma_vanishing(g, rhs, k);
                let x = rhs[k];
                assert(g.terminals.contains(u));
                let tr = choose|tr: Tree| begins_with(g, tr, x, u);
                let rest = leaves(rhs.skip(k + 1));
                let kids = before.push(tr) + rest;
                lemma_fringes_push(before, tr);
                lemma_fringes_add(before.push(tr), rest);
                assert(roots(g, kids) =~= rhs) by {
                    assert forall|i: int| 0 <= i < rhs.len() implies roots(g, kids)[i] == rhs[i] by {
                        if i < k {
                            assert(kids[i] == before[i]);
                            assert(roots(g, before)[i] == rhs.take(k)[i]);
                        } else if i > k {
                            assert(kids[i] == rest[i - k - 1]);
                        } else {
                            assert(kids[i] == tr);
                        }
                    }
                }
                assert forall|i: int| 0 <= i < kids.len() implies partly_derived(
                    g,
                    #[trigger] kids[i],
                ) by {
                    if i < k {
                        assert(kids[i] == before[i]);
                    } else if i > k {
                        assert(kids[i] == rest[i - k - 1]);
                    } else {
                        assert(kids[i] == tr);
                    }
                }
                let node = Tree::Node(r, kids);
                assert(fringe(node) == fringes(kids));
                assert(fringe(node)[0] == fringe(tr)[0]);
                assert(begins_with(g, node, rule.lhs, u));
                assert(can_begin(g, rule.lhs, u));
            }
            if nullable_upto(f, rhs, rhs.len() as int) {
                let kids = lemma_vanishing(g, rhs, rhs.len() as int);
                assert(rhs.take(rhs.len() as int) =~= rhs);
                assert(vanishes(g, Tree::Node(r, kids), rule.lhs));
                assert(can_vanish(g, rule.lhs));
            }
        }
    }
    lemma_first_least(g, f);
    if first(g).contains((x, EPSILON)) {
        assert(f.contains((x, EPSILON)));
    }
    if can_vanish(g, x) {
        let tr = choose|tr: Tree| vanishes(g, tr, x);
        lemma_first_of_tree(g, tr);
    }
    if g.terminals.contains(t) {
        assert(t != EPSILON);
        if first(g).contains((x, t)) {
            assert(f.contains((x, t)));
        }
        if can_begin(g, x, t) {
            let tr = choose|tr: Tree| begins_with(g, tr, x, t);
            lemma_first_of_tree(g, tr);
        }
    }
}

// ---------------------------------------------------------------------------
// FOLLOW
// ---------------------------------------------------------------------------

/// Whether FOLLOW holds what it must of the symbol at `i` in what the symbol `x` derives:
/// the terminal behind it, or what follows `x` where nothing is behind it.
pub open spec fn followed(g: GrammarView, x: usize, w: Seq<usize>, i: int) -> bool {
    let ww = follow(g, first(g));
    if i + 1 < w.len() {
        g.terminals.contains(w[i + 1]) ==> ww.contains((w[i], w[i + 1]))
    } else {
        forall|t: usize| #[trigger] ww.contains((x, t)) ==> ww.contains((w[i], t))
    }
}

/// FOLLOW holds of each nonterminal the terminals that stand behind it in what a symbol
/// derives, and where it is the last there, what follows that symbol.
pub proof fn law_follow_holds(g: GrammarView, t: Tree, i: int)
    requires
        wf(g),
        partly_derived(g, t),
        0 <= i < fringe(t).len(),
        g.nonterminals.contains(fringe(t)[i]),
    ensures
        followed(g, root(g, t), fringe(t), i),
    decreases t,
{
    match t {
        Tree::Leaf(_) => {},
        Tree::Node(r, kids) => {
            assert(kids.take(kids.len() as int) =~= kids);
            lemma_follow_in_rule(g, r, kids, kids.len(), i);
        },
    }
}

/// The same below a rule, in what its first `n` symbols derive; what follows the last of
/// these is then what the rest begins with, and what follows the left-hand side where the
/// rest derives nothing.
proof fn lemma_follow_in_rule(g: GrammarView, r: int, kids: Seq<Tree>, n: nat, i: int)
    requires
        wf(g),
        0 <= r < g.rules.len(),
        roots(g, kids) == g.rules[r].rhs,
        all_partly_derived(g, kids),
        n <= kids.len(),
        0 <= i < fringes(kids.take(n as int)).len(),
        g.nonterminals.contains(fringes(kids.take(n as int))[i]),
    ensures
        followed(g, g.rules[r].lhs, fringes(kids), i),
    decreases kids, n,
{
    let m = n - 1;
    let before = kids.take(m);
    let last = kids[m];
    let rest = kids.skip(m + 1);
    let all = fringes(kids);
    lemma_fringes_push(before, last);
    assert(kids.take(n as int) =~= before.push(last));
    lemma_fringes_add(kids.take(n as int), rest);
    assert(kids.take(n as int) + rest =~= kids);
    let u = fringes(before);
    let f = fringe(last);
    let z = fringes(rest);
    assert(all == u + f + z);
    if i < u.len() {
        assert(fringes(kids.take(n as int))[i] == u[i]);
        lemma_follow_in_rule(g, r, kids, m as nat, i);
    } else {
        let j = i - u.len();
        assert(partly_derived(g, kids[m]));
        assert(all[i] == f[j]);
        assert(fringes(kids.take(n as int))[i] == f[j]);
        law_follow_holds(g, last, j);
        if i + 1 < u.len() + f.len() {
            assert(all[i + 1] == f[j + 1]);
        } else {
            let ww = follow(g, first(g));
            let x = root(g, last);
            assert(roots(g, kids)[m] == x);
            match last {
                Tree::Node(q, _) => {
                    assert(wf_rule(g, g.rules[q]));
                },
                Tree::Leaf(_) => {},
            }
            assert(g.nonterminals.contains(g.rules[r].rhs[m]));
            lemma_follow_closed(g, first(g));
            assert(follow_closed_at(first(g), ww, g.rules[r], m));
            assert forall|q: int| 0 <= q < rest.len() implies partly_derived(
                g,
                #[trigger] rest[q],
            ) by {
                assert(rest[q] == kids[m + 1 + q]);
            }
            lemma_first_of_trees(g, rest);
            assert(roots(g, rest) =~= g.rules[r].rhs.skip(m + 1)) by {
                assert forall|q: int| 0 <= q < rest.len() implies roots(g, rest)[q]
                    == g.rules[r].rhs.skip(m + 1)[q] by {
                    assert(roots(g, kids)[m + 1 + q] == g.rules[r].rhs[m + 1 + q]);
                }
            }
            let begin = first_of(first(g), g.rules[r].rhs.skip(m + 1));
            if z.len() > 0 {
                assert(all[i + 1] == z[0]);
                if g.terminals.contains(z[0]) {
                    assert(begin.contains(z[0]));
                    assert(ww.contains((x, z[0])));
                }
            } else {
                assert(begin.contains(EPSILON));
                assert forall|t: usize| #[trigger] ww.contains(
                    (g.rules[r].lhs, t),
                ) implies ww.contains((all[i], t)) by {
                    assert(ww.contains((x, t)));
                }
            }
        }
    }
}

// ---------------------------------------------------------------------------
// FOLLOW is exact
// ---------------------------------------------------------------------------

/// Whether `t` stands directly behind `x` in what the tree derives, with `x` at `i`.
pub open spec fn stands_behind(tr: Tree, i: int, x: usize, t: usize) -> bool {
    0 <= i && i + 1 < fringe(tr).len() && fringe(tr)[i] == x && fringe(tr)[i + 1] == t
}

/// Whether `t` stands directly behind `x` in something that a symbol derives.
pub open spec fn can_stand_behind(g: GrammarView, x: usize, t: usize) -> bool {
    exists|tr: Tree, i: int| #[trigger] stands_behind(tr, i, x, t) && partly_derived(g, tr)
}

/// Whether the tree derives from `y` what ends with `x`.
pub open spec fn ends_with(g: GrammarView, tr: Tree, y: usize, x: usize) -> bool {
    partly_derived(g, tr) && root(g, tr) == y && fringe(tr).len() > 0 && fringe(tr).last() == x
}

/// Whether a derivation from `y` ends with `x`.
pub open spec fn can_end(g: GrammarView, y: usize, x: usize) -> bool {
    exists|tr: Tree| ends_with(g, tr, y, x)
}

/// The tree with another one in the place of a leaf.
proof fn lemma_graft(g: GrammarView, t: Tree, i: int, sub: Tree) -> (u: Tree)
    requires
        partly_derived(g, t),
        partly_derived(g, sub),
        0 <= i < fringe(t).len(),
        root(g, sub) == fringe(t)[i],
    ensures
        partly_derived(g, u),
        root(g, u) == root(g, t),
        fringe(u) == fringe(t).take(i) + fringe(sub) + fringe(t).skip(i + 1),
    decreases t,
{
    match t {
        Tree::Leaf(_) => {
            assert(fringe(t).take(i) + fringe(sub) + fringe(t).skip(i + 1) =~= fringe(sub));
            sub
        },
        Tree::Node(r, kids) => {
            let us = lemma_graft_in(g, kids, i, sub);
            Tree::Node(r, us)
        },
    }
}

/// The trees with another one in the place of a leaf.
proof fn lemma_graft_in(g: GrammarView, ts: Seq<Tree>, i: int, sub: Tree) -> (us: Seq<Tree>)
    requires
        all_partly_derived(g, ts),
        partly_derived(g, sub),
        0 <= i < fringes(ts).len(),
        root(g, sub) == fringes(ts)[i],
    ensures
        all_partly_derived(g, us),
        roots(g, us) == roots(g, ts),
        fringes(us) == fringes(ts).take(i) + fringe(sub) + fringes(ts).skip(i + 1),
    decreases ts,
{
    let before = ts.drop_last();
    let n = before.len() as int;
    let u = fringes(before);
    let f = fringe(ts.last());
    assert(partly_derived(g, ts[n]));
    assert forall|k: int| 0 <= k < n implies partly_derived(g, #[trigger] before[k]) by {
        assert(before[k] == ts[k]);
    }
    let us = if i < u.len() {
        let vs = lemma_graft_in(g, before, i, sub);
        lemma_fringes_push(vs, ts.last());
        assert(fringes(ts).take(i) =~= u.take(i));
        assert(fringes(ts).skip(i + 1) =~= u.skip(i + 1) + f);
        assert(fringes(vs) + f =~= u.take(i) + fringe(sub) + (u.skip(i + 1) + f));
        assert(roots(g, vs).len() == vs.len());
        assert(roots(g, before).len() == n);
        assert forall|k: int| 0 <= k < n implies root(g, #[trigger] vs[k]) == root(g, ts[k]) by {
            assert(roots(g, vs)[k] == roots(g, before)[k]);
        }
        vs.push(ts.last())
    } else {
        let j = i - u.len();
        let last = lemma_graft(g, ts.last(), j, sub);
        lemma_fringes_push(before, last);
        assert(fringes(ts).take(i) =~= u + f.take(j));
        assert(fringes(ts).skip(i + 1) =~= f.skip(j + 1));
        assert(u + (f.take(j) + fringe(sub) + f.skip(j + 1)) =~= (u + f.take(j)) + fringe(sub)
            + f.skip(j + 1));
        before.push(last)
    };
    assert(us.len() == ts.len());
    assert forall|k: int| 0 <= k < us.len() implies partly_derived(g, #[trigger] us[k]) by {
        if k < n {
            if i < u.len() {
                assert(us[k] == us.drop_last()[k]);
            } else {
                assert(us[k] == before[k]);
            }
        }
    }
    assert(roots(g, us) =~= roots(g, ts)) by {
        assert forall|k: int| 0 <= k < us.len() implies roots(g, us)[k] == roots(g, ts)[k] by {
            if k < n {
                assert(before[k] == ts[k]);
            }
        }
    }
    us
}

/// What FIRST is by its derivations vanishes as FIRST says.
proof fn lemma_vanishing_first(g: GrammarView, syms: Seq<usize>, k: int) -> (ts: Seq<Tree>)
    requires
        wf(g),
        0 <= k <= syms.len(),
        nullable_upto(first(g), syms, k),
    ensures
        ts.len() == k,
        all_partly_derived(g, ts),
        roots(g, ts) == syms.take(k),
        fringes(ts).len() == 0,
{
    assert forall|i: int| 0 <= i < k implies first_by_trees(g).contains(
        (#[trigger] syms[i], EPSILON),
    ) by {
        assert(first(g).contains((syms[i], EPSILON)));
        law_first_exact(g, syms[i], 0);
    }
    lemma_vanishing(g, syms, k)
}

proof fn lemma_leaves(g: GrammarView, syms: Seq<usize>)
    ensures
        all_partly_derived(g, leaves(syms)),
        roots(g, leaves(syms)) == syms,
        fringes(leaves(syms)) == syms,
    decreases syms.len(),
{
    let ts = leaves(syms);
    assert(roots(g, ts) =~= syms);
    if syms.len() > 0 {
        lemma_leaves(g, syms.drop_last());
        assert(ts.drop_last() =~= leaves(syms.drop_last()));
        assert(ts.last() == Tree::Leaf(syms.last()));
        assert(fringe(ts.last()) == seq![syms.last()]);
        assert(fringes(ts) == syms.drop_last() + seq![syms.last()]);
        assert(syms.drop_last() + seq![syms.last()] =~= syms);
    } else {
        assert(fringes(ts) =~= syms);
    }
}

/// A rule as a tree: the symbols up to `k` as leaves, behind them what the rest derives.
proof fn lemma_rule_tree(g: GrammarView, r: int, k: int, rest: Seq<Tree>) -> (tr: Tree)
    requires
        0 <= r < g.rules.len(),
        0 <= k < g.rules[r].rhs.len(),
        all_partly_derived(g, rest),
        roots(g, rest) == g.rules[r].rhs.skip(k + 1),
    ensures
        partly_derived(g, tr),
        root(g, tr) == g.rules[r].lhs,
        fringe(tr) == g.rules[r].rhs.take(k + 1) + fringes(rest),
{
    let rhs = g.rules[r].rhs;
    let begin = leaves(rhs.take(k + 1));
    lemma_leaves(g, rhs.take(k + 1));
    let kids = begin + rest;
    lemma_fringes_add(begin, rest);
    assert(roots(g, rest).len() == rest.len());
    assert(roots(g, kids) =~= rhs) by {
        assert forall|i: int| 0 <= i < rhs.len() implies roots(g, kids)[i] == rhs[i] by {
            if i <= k {
                assert(kids[i] == begin[i]);
            } else {
                assert(kids[i] == rest[i - k - 1]);
                assert(roots(g, rest)[i - k - 1] == rhs.skip(k + 1)[i - k - 1]);
            }
        }
    }
    assert forall|i: int| 0 <= i < kids.len() implies partly_derived(g, #[trigger] kids[i]) by {
        if i <= k {
            assert(kids[i] == begin[i]);
        } else {
            assert(kids[i] == rest[i - k - 1]);
        }
    }
    Tree::Node(r, kids)
}

/// What FOLLOW is to be: what may stand directly behind a symbol, and the end of the input
/// where the symbol may stand last.
spec fn follow_by_trees(g: GrammarView) -> Set<(usize, usize)> {
    Set::new(
        |p: (usize, usize)|
            can_stand_behind(g, p.0, p.1) || (p.1 == EOF_TOKEN && can_stand_last(g, p.0)),
    )
}

/// Whether what is derived from the start symbol, or from the symbol for the whole input,
/// may end with `x`.
pub open spec fn can_stand_last(g: GrammarView, x: usize) -> bool {
    ||| g.start matches Some(s) && can_end(g, s, x)
    ||| can_end(g, g.augmented_start, x)
}

proof fn lemma_follow_begins(g: GrammarView, r: int, k: int, t: usize)
    requires
        wf(g),
        0 <= r < g.rules.len(),
        0 <= k < g.rules[r].rhs.len(),
        t != EPSILON,
        first_of(first(g), g.rules[r].rhs.skip(k + 1)).contains(t),
    ensures
        can_stand_behind(g, g.rules[r].rhs[k], t),
{
    let rhs = g.rules[r].rhs;
    let syms = rhs.skip(k + 1);
    let j = choose|j: int|
        0 <= j < syms.len() && nullable_upto(first(g), syms, j) && #[trigger] first(g).contains(
            (syms[j], t),
        );
    let y = syms[j];
    crate::sets::lemma_first_terminals(g, y, t);
    law_first_exact(g, y, t);
    let tr = choose|tr: Tree| begins_with(g, tr, y, t);
    let before = lemma_vanishing_first(g, syms, j);
    let after = leaves(syms.skip(j + 1));
    lemma_leaves(g, syms.skip(j + 1));
    let rest = before.push(tr) + after;
    lemma_fringes_push(before, tr);
    lemma_fringes_add(before.push(tr), after);
    assert(roots(g, rest) =~= syms) by {
        assert forall|i: int| 0 <= i < syms.len() implies roots(g, rest)[i] == syms[i] by {
            if i < j {
                assert(rest[i] == before[i]);
                assert(roots(g, before)[i] == syms.take(j)[i]);
            } else if i > j {
                assert(rest[i] == after[i - j - 1]);
            } else {
                assert(rest[i] == tr);
            }
        }
    }
    assert forall|i: int| 0 <= i < rest.len() implies partly_derived(g, #[trigger] rest[i]) by {
        if i < j {
            assert(rest[i] == before[i]);
        } else if i > j {
            assert(rest[i] == after[i - j - 1]);
        } else {
            assert(rest[i] == tr);
        }
    }
    assert(fringes(rest)[0] == t);
    let node = lemma_rule_tree(g, r, k, rest);
    assert(stands_behind(node, k, rhs[k], t));
}

proof fn lemma_follow_inherits(g: GrammarView, r: int, k: int, t: usize)
    requires
        wf(g),
        0 <= r < g.rules.len(),
        0 <= k < g.rules[r].rhs.len(),
        first_of(first(g), g.rules[r].rhs.skip(k + 1)).contains(EPSILON),
        follow_by_trees(g).contains((g.rules[r].lhs, t)),
    ensures
        follow_by_trees(g).contains((g.rules[r].rhs[k], t)),
{
    let rhs = g.rules[r].rhs;
    let lhs = g.rules[r].lhs;
    let x = rhs[k];
    let syms = rhs.skip(k + 1);
    let rest = lemma_vanishing_first(g, syms, syms.len() as int);
    assert(syms.take(syms.len() as int) =~= syms);
    let sub = lemma_rule_tree(g, r, k, rest);
    assert(fringe(sub) =~= rhs.take(k + 1));
    if can_stand_behind(g, lhs, t) {
        let (tr, i) = choose|tr: Tree, i: int| #[trigger]
            stands_behind(tr, i, lhs, t) && partly_derived(g, tr);
        let u = lemma_graft(g, tr, i, sub);
        assert(fringe(u)[i + k] == x);
        assert(fringe(u)[i + k + 1] == fringe(tr).skip(i + 1)[0]);
        assert(stands_behind(u, i + k, x, t));
    } else {
        if g.start matches Some(s) && can_end(g, s, lhs) {
            lemma_end_inherits(g, g.start->0, lhs, x, sub);
        }
        if can_end(g, g.augmented_start, lhs) {
            lemma_end_inherits(g, g.augmented_start, lhs, x, sub);
        }
    }
}

proof fn lemma_end_inherits(g: GrammarView, y: usize, lhs: usize, x: usize, sub: Tree)
    requires
        can_end(g, y, lhs),
        ends_with(g, sub, lhs, x),
    ensures
        can_end(g, y, x),
{
    let tr = choose|tr: Tree| ends_with(g, tr, y, lhs);
    let i = fringe(tr).len() - 1;
    let u = lemma_graft(g, tr, i, sub);
    assert(fringe(u) =~= fringe(tr).take(i) + fringe(sub));
    assert(ends_with(g, u, y, x));
}

/// FOLLOW is exact: it holds of a nonterminal just the terminals that stand directly behind
/// it in something that a symbol derives, and the end of the input where it may stand last
/// in what the whole input is derived from.
pub proof fn law_follow_exact(g: GrammarView, x: usize, t: usize)
    requires
        wf(g),
        g.nonterminals.contains(x),
    ensures
        follow(g, first(g)).contains((x, t)) <==> {
            &&& g.terminals.contains(t)
            &&& can_stand_behind(g, x, t) || (t == EOF_TOKEN && can_stand_last(g, x))
        },
{
    let f = first(g);
    let w = follow_by_trees(g);
    assert(follow_closed(g, f, w)) by {
        assert(g.start matches Some(s) ==> w.contains((s, EOF_TOKEN))) by {
            if g.start is Some {
                let s = g.start->0;
                assert(ends_with(g, Tree::Leaf(s), s, s));
                assert(can_end(g, s, s));
            }
        }
        let a = g.augmented_start;
        assert(ends_with(g, Tree::Leaf(a), a, a));
        assert(can_end(g, a, a));
        assert forall|i: int, k: int|
            #![trigger g.rules[i].rhs[k]]
            0 <= i < g.rules.len() && 0 <= k < g.rules[i].rhs.len() && g.nonterminals.contains(
                g.rules[i].rhs[k],
            ) implies follow_closed_at(f, w, g.rules[i], k) by {
            let r = g.rules[i];
            let rest = first_of(f, r.rhs.skip(k + 1));
            assert forall|u: usize| u != EPSILON && #[trigger] rest.contains(u) implies w.contains(
                (r.rhs[k], u),
            ) by {
                lemma_follow_begins(g, i, k, u);
            }
            if rest.contains(EPSILON) {
                assert forall|u: usize| #[trigger] w.contains((r.lhs, u)) implies w.contains(
                    (r.rhs[k], u),
                ) by {
                    lemma_follow_inherits(g, i, k, u);
                }
            }
        }
    }
    lemma_follow_least(g, f, w);
    lemma_follow_closed(g, f);
    if follow(g, f).contains((x, t)) {
        assert(w.contains((x, t)));
        lemma_follow_terminals(g, x, t);
    }
    if g.terminals.contains(t) && can_stand_behind(g, x, t) {
        let (tr, i) = choose|tr: Tree, i: int| #[trigger]
            stands_behind(tr, i, x, t) && partly_derived(g, tr);
        law_follow_holds(g, tr, i);
    }
    if t == EOF_TOKEN {
        if g.start matches Some(s) && can_end(g, s, x) {
            let tr = choose|tr: Tree| ends_with(g, tr, g.start->0, x);
            law_follow_holds(g, tr, fringe(tr).len() - 1);
        }
        if can_end(g, g.augmented_start, x) {
            let tr = choose|tr: Tree| ends_with(g, tr, g.augmented_start, x);
            law_follow_holds(g, tr, fringe(tr).len() - 1);
        }
    }
}

/// Whether the tree derives from the symbol for the whole input a list with `x` at `i`.
pub open spec fn reaches(g: GrammarView, tr: Tree, i: int, x: usize) -> bool {
    partly_derived(g, tr) && root(g, tr) == g.augmented_start && 0 <= i < fringe(tr).len()
        && fringe(tr)[i] == x
}

/// Whether the symbol stands in something that is derived from the symbol for the whole
/// input.
pub open spec fn reachable(g: GrammarView, x: usize) -> bool {
    exists|tr: Tree, i: int| #[trigger] reaches(g, tr, i, x)
}

/// Where all nonterminals are reachable, FOLLOW holds of a nonterminal just the terminals
/// that stand directly behind it in something that is derived from the start symbol with
/// the end of the input behind it.
pub proof fn law_follow_in_forms(g: GrammarView, x: usize, t: usize)
    requires
        complete(g),
        g.nonterminals.contains(x),
        x != g.augmented_start,
        g.terminals.contains(t),
        forall|y: usize| #[trigger] g.nonterminals.contains(y) ==> reachable(g, y),
    ensures
        follow(g, first(g)).contains((x, t)) <==> exists|tr: Tree, i: int|
            reaches(g, tr, i, x) && #[trigger] stands_behind(tr, i, x, t),
{
    law_follow_exact(g, x, t);
    if follow(g, first(g)).contains((x, t)) {
        if can_stand_behind(g, x, t) {
            let (sub, j) = choose|tr: Tree, i: int| #[trigger]
                stands_behind(tr, i, x, t) && partly_derived(g, tr);
            match sub {
                Tree::Leaf(_) => {},
                Tree::Node(q, _) => {
                    assert(wf_rule(g, g.rules[q]));
                    let y = root(g, sub);
                    assert(reachable(g, y));
                    let (tr, i) = choose|tr: Tree, i: int| #[trigger] reaches(g, tr, i, y);
                    let u = lemma_graft(g, tr, i, sub);
                    assert(fringe(u)[i + j] == fringe(sub)[j]);
                    assert(fringe(u)[i + j + 1] == fringe(sub)[j + 1]);
                    assert(stands_behind(u, i + j, x, t));
                    assert(reaches(g, u, i + j, x));
                },
            }
        } else if can_end(g, g.start->0, x) {
            let s = g.start->0;
            let sub = choose|tr: Tree| ends_with(g, tr, s, x);
            let whole = Tree::Node(0, leaves(g.rules[0].rhs));
            lemma_leaves(g, g.rules[0].rhs);
            assert(g.rules[0].rhs == seq![s, EOF_TOKEN]);
            assert(fringe(whole) == g.rules[0].rhs);
            let u = lemma_graft(g, whole, 0, sub);
            let i = fringe(sub).len() - 1;
            assert(fringe(u)[i] == x);
            assert(fringe(u)[i + 1] == EOF_TOKEN);
            assert(stands_behind(u, i, x, t));
            assert(reaches(g, u, i, x));
        } else {
            let tr = choose|tr: Tree| ends_with(g, tr, g.augmented_start, x);
            match tr {
                Tree::Leaf(_) => {},
                Tree::Node(q, kids) => {
                    assert(q == 0);
                    assert(roots(g, kids).len() == 2);
                    assert(roots(g, kids)[1] == EOF_TOKEN);
                    let last = kids[1];
                    assert(kids.last() == last);
                    assert(partly_derived(g, kids[1]));
                    match last {
                        Tree::Node(p, _) => {
                            assert(wf_rule(g, g.rules[p]));
                        },
                        Tree::Leaf(y) => {
                            assert(fringe(last) =~= seq![y]);
                            assert(fringe(tr).last() == EOF_TOKEN);
                        },
                    }
                },
            }
        }
    }
    if exists|tr: Tree, i: int| reaches(g, tr, i, x) && #[trigger] stands_behind(tr, i, x, t) {
        let (tr, i) = choose|tr: Tree, i: int|
            reaches(g, tr, i, x) && #[trigger] stands_behind(tr, i, x, t);
        assert(can_stand_behind(g, x, t));
    }
}

/// Whether the trees derive from the symbols, one after the other, what begins with `t`.
pub open spec fn begin_with(g: GrammarView, ts: Seq<Tree>, syms: Seq<usize>, t: usize) -> bool {
    all_partly_derived(g, ts) && roots(g, ts) == syms && fringes(ts).len() > 0 && fringes(ts)[0]
        == t
}

/// Whether the trees derive nothing from the symbols.
pub open spec fn all_vanish(g: GrammarView, ts: Seq<Tree>, syms: Seq<usize>) -> bool {
    all_partly_derived(g, ts) && roots(g, ts) == syms && fringes(ts).len() == 0
}

/// FIRST of several symbols is exact too: it holds just the terminals that derivations from
/// them, one after the other, begin with, and the empty string just where they all derive
/// that.
pub proof fn law_first_of_exact(g: GrammarView, syms: Seq<usize>, t: usize)
    requires
        wf(g),
    ensures
        first_of(first(g), syms).contains(EPSILON) <==> exists|ts: Seq<Tree>| #[trigger]
            all_vanish(g, ts, syms),
        g.terminals.contains(t) ==> (first_of(first(g), syms).contains(t) <==> exists|
            ts: Seq<Tree>,
        | #[trigger] begin_with(g, ts, syms, t)),
{
    let f = first(g);
    if first_of(f, syms).contains(EPSILON) {
        let ts = lemma_vanishing_first(g, syms, syms.len() as int);
        assert(syms.take(syms.len() as int) =~= syms);
        assert(all_vanish(g, ts, syms));
    }
    if exists|ts: Seq<Tree>| #[trigger] all_vanish(g, ts, syms) {
        let ts = choose|ts: Seq<Tree>| #[trigger] all_vanish(g, ts, syms);
        lemma_first_of_trees(g, ts);
    }
    if g.terminals.contains(t) {
        assert(is_symbol(g, t));
        assert(t != EPSILON);
        if first_of(f, syms).contains(t) {
            let j = choose|j: int|
                0 <= j < syms.len() && nullable_upto(f, syms, j) && #[trigger] f.contains(
                    (syms[j], t),
                );
            let y = syms[j];
            law_first_exact(g, y, t);
            let tr = choose|tr: Tree| begins_with(g, tr, y, t);
            let before = lemma_vanishing_first(g, syms, j);
            let after = leaves(syms.skip(j + 1));
            lemma_leaves(g, syms.skip(j + 1));
            let ts = before.push(tr) + after;
            lemma_fringes_push(before, tr);
            lemma_fringes_add(before.push(tr), after);
            assert(roots(g, ts) =~= syms) by {
                assert forall|i: int| 0 <= i < syms.len() implies roots(g, ts)[i] == syms[i] by {
                    if i < j {
                        assert(ts[i] == before[i]);
                        assert(roots(g, before)[i] == syms.take(j)[i]);
                    } else if i > j {
                        assert(ts[i] == after[i - j - 1]);
                    } else {
                        assert(ts[i] == tr);
                    }
                }
            }
            assert forall|i: int| 0 <= i < ts.len() implies partly_derived(g, #[trigger] ts[i]) by {
                if i < j {
                    assert(ts[i] == before[i]);
                } else if i > j {
                    assert(ts[i] == after[i - j - 1]);
                } else {
                    assert(ts[i] == tr);
                }
            }
            assert(begin_with(g, ts, syms, t));
        }
        if exists|ts: Seq<Tree>| #[trigger] begin_with(g, ts, syms, t) {
            let ts = choose|ts: Seq<Tree>| #[trigger] begin_with(g, ts, syms, t);
            lemma_first_of_trees(g, ts);
        }
    }
}

} // verus!
