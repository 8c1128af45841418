//! The machine that the tables drive, and the language that it accepts.
//!
//! The parser that is written in C is this machine with a bound on its stack. It knows a
//! terminal by its number in the scanner's interface.

use crate::automaton::{
    all_items, awaits, closed, closure, expects, fresh_item, goto, is_item, lemma_closure_adds,
    lemma_closure_least, lemma_goto_advances, lemma_goto_origin, lemma_state_closed, lemma_states,
    states_of, LR0Item,
};
use crate::entries::{
    can_accept, can_reduce, can_shift, done_item, entry, faithful, lemma_entry_accepts,
    lemma_entry_allowed, lemma_faithful,
};
use crate::grammar::{complete, wf_rule, GrammarView, EOF_TOKEN};
use crate::language::{
    all_derived, derived, fringe, fringes, is_sentence, lemma_all_partly, lemma_first_of_trees,
    lemma_fringe_without_end, lemma_fringes_add, lemma_fringes_push, lemma_fringes_terminal, parses,
    root, roots, Tree,
};
use crate::sets::{first, first_of, follow_closed_at, lemma_follow_closed, EPSILON};
use crate::tables::{
    action_row, follow_of, goto_row, has_room, lemma_targets, reduce_by, reduced_rule, reduces,
    tables, target, TableView, ACCEPT_ACTION, ERROR_ACTION,
};
use vstd::prelude::*;

verus! {

/// Where the machine is: the numbers of the states on its stack, what has been derived
/// between each and the next, and how many terminals it has read.
#[verifier::ext_equal]
pub struct Config {
    pub stack: Seq<int>,
    pub trees: Seq<Tree>,
    pub pos: nat,
}

/// The terminal at `i`; behind the last one, the end of the input.
pub open spec fn token(w: Seq<usize>, i: int) -> usize {
    if 0 <= i < w.len() {
        w[i]
    } else {
        EOF_TOKEN
    }
}

/// The first `n` terminals that the machine reads.
pub open spec fn tokens(w: Seq<usize>, n: nat) -> Seq<usize> {
    Seq::new(n, |i: int| token(w, i))
}

/// What the tables say in state number `k` on `t`.
pub open spec fn action_in(v: TableView, k: int, t: usize) -> int {
    if v.actions[k].dom().contains(t) {
        v.actions[k][t] as int
    } else {
        ERROR_ACTION as int
    }
}

/// One step of the machine: it shifts the next terminal, or reduces by a rule, which takes
/// from the stack as many states as the rule has symbols and goes on from the state below.
/// There is no step where it accepts or refuses the input.
pub open spec fn step(g: GrammarView, v: TableView, w: Seq<usize>, c: Config) -> Option<Config> {
    let t = token(w, c.pos as int);
    let a = action_in(v, c.stack.last(), t);
    if a > 0 {
        Some(
            Config {
                stack: c.stack.push(a - 1),
                trees: c.trees.push(Tree::Leaf(t)),
                pos: c.pos + 1,
            },
        )
    } else if reduces(a) {
        let r = reduced_rule(a);
        let n = c.trees.len() - g.rules[r].rhs.len();
        let below = c.stack.take(n + 1);
        let lhs = g.rules[r].lhs;
        if n >= 0 && v.gotos[below.last()].dom().contains(lhs) {
            Some(
                Config {
                    stack: below.push(v.gotos[below.last()][lhs] as int),
                    trees: c.trees.take(n).push(Tree::Node(r, c.trees.skip(n))),
                    pos: c.pos,
                },
            )
        } else {
            None
        }
    } else {
        None
    }
}

/// Where the machine is after `n` steps, if there are so many.
pub open spec fn run(g: GrammarView, v: TableView, w: Seq<usize>, c: Config, n: nat) -> Option<
    Config,
>
    decreases n,
{
    if n == 0 {
        Some(c)
    } else {
        match run(g, v, w, c, (n - 1) as nat) {
            Some(d) => step(g, v, w, d),
            None => None,
        }
    }
}

/// Where the machine begins.
pub open spec fn first_config() -> Config {
    Config { stack: seq![0], trees: Seq::empty(), pos: 0 }
}

/// Whether the machine accepts where it is.
pub open spec fn is_accepting(v: TableView, w: Seq<usize>, c: Config) -> bool {
    action_in(v, c.stack.last(), token(w, c.pos as int)) == ACCEPT_ACTION
}

/// Whether the machine that the tables drive accepts the terminals within `n` steps.
pub open spec fn accepts_after(g: GrammarView, v: TableView, w: Seq<usize>, n: nat) -> bool {
    run(g, v, w, first_config(), n) matches Some(c) && is_accepting(v, w, c)
}

/// Whether the machine that the tables drive accepts the terminals.
pub open spec fn accepts(g: GrammarView, v: TableView, w: Seq<usize>) -> bool {
    exists|n: nat| accepts_after(g, v, w, n)
}

// ---------------------------------------------------------------------------
// What holds at each step
// ---------------------------------------------------------------------------

/// Whether the stack is a path in the automaton along what has been derived.
pub open spec fn linked(g: GrammarView, c: Config) -> bool {
    &&& c.stack.len() == c.trees.len() + 1
    &&& c.stack[0] == 0
    &&& forall|i: int| 0 <= i < c.stack.len() ==> 0 <= #[trigger] c.stack[i] < states_of(g).len()
    &&& forall|i: int|
        0 <= i < c.trees.len() ==> states_of(g)[c.stack[i + 1]] == goto(
            g,
            states_of(g)[c.stack[i]],
            root(g, #[trigger] c.trees[i]),
        )
}

/// Whether the trees on the stack derive what has been read.
pub open spec fn sound(g: GrammarView, w: Seq<usize>, c: Config) -> bool {
    &&& linked(g, c)
    &&& all_derived(g, c.trees)
    &&& fringes(c.trees) == tokens(w, c.pos)
}

/// An item of the state at `i` on the stack, with its mark at `dot`, has the last `dot`
/// derivations below it, and stands with its mark in front in the state below those.
proof fn lemma_path(g: GrammarView, c: Config, i: int, it: LR0Item)
    requires
        complete(g),
        linked(g, c),
        0 <= i < c.stack.len(),
        states_of(g)[c.stack[i]].contains(it),
    ensures
        it.dot <= i,
        forall|j: int|
            0 <= j < it.dot ==> #[trigger] g.rules[it.rule as int].rhs[j] == root(
                g,
                c.trees[i - it.dot + j],
            ),
        states_of(g)[c.stack[i - it.dot]].contains(LR0Item { rule: it.rule, dot: 0 }),
    decreases it.dot,
{
    lemma_states(g);
    if it.dot > 0 {
        if i == 0 {
            lemma_closure_adds(g, set![fresh_item(0)], it);
        } else {
            let below = states_of(g)[c.stack[i - 1]];
            let x = root(g, c.trees[i - 1]);
            assert(c.stack[i - 1] >= 0);
            assert(states_of(g)[c.stack[i - 1 + 1]] == goto(g, below, x));
            lemma_goto_origin(g, below, x, it);
            let from = LR0Item { rule: it.rule, dot: (it.dot - 1) as usize };
            lemma_path(g, c, i - 1, from);
            assert forall|j: int| 0 <= j < it.dot implies #[trigger] g.rules[it.rule as int].rhs[j]
                == root(g, c.trees[i - it.dot + j]) by {
                if j == it.dot - 1 {
                    assert(g.rules[it.rule as int].rhs[from.dot as int] == x);
                }
            }
        }
    } else {
        assert(it == LR0Item { rule: it.rule, dot: 0 });
    }
}

/// The rule for the whole input stands with its mark in front in the first state only.
proof fn lemma_bottom(g: GrammarView, c: Config, i: int)
    requires
        complete(g),
        linked(g, c),
        0 <= i < c.stack.len(),
        states_of(g)[c.stack[i]].contains(fresh_item(0)),
    ensures
        i == 0,
{
    if i > 0 {
        let below = states_of(g)[c.stack[i - 1]];
        let x = root(g, c.trees[i - 1]);
        assert(c.stack[i - 1] >= 0);
        assert(states_of(g)[c.stack[i - 1 + 1]] == goto(g, below, x));
        lemma_states(g);
        assert(all_items(g, below));
        let base = crate::automaton::advanced(g, below, x);
        let without = Set::new(|it: LR0Item| is_item(g, it) && it != fresh_item(0));
        assert forall|it: LR0Item| #[trigger] base.contains(it) implies without.contains(it) by {
            let from = LR0Item { rule: it.rule, dot: (it.dot - 1) as usize };
            assert(below.contains(from));
            assert(is_item(g, from));
        }
        assert(closed(g, without)) by {
            assert forall|it: LR0Item, r: int|
                #[trigger] without.contains(it) && 0 <= r < g.rules.len() && awaits(
                    g,
                    it,
                    (#[trigger] g.rules[r]).lhs,
                ) implies without.contains(fresh_item(r)) by {
                assert(g.rules[it.rule as int].rhs[it.dot as int] != g.augmented_start);
                assert(r != 0);
                assert(fresh_item(r).rule == r);
            }
        }
        lemma_closure_least(g, base, without);
        assert(without.contains(fresh_item(0)));
    }
}

/// A shift keeps what holds.
proof fn lemma_shift_sound(g: GrammarView, w: Seq<usize>, c: Config)
    requires
        complete(g),
        sound(g, w, c),
        can_shift(g, c.stack.last(), token(w, c.pos as int)),
    ensures
        sound(
            g,
            w,
            Config {
                stack: c.stack.push(target(g, c.stack.last(), token(w, c.pos as int))),
                trees: c.trees.push(Tree::Leaf(token(w, c.pos as int))),
                pos: c.pos + 1,
            },
        ),
{
    let t = token(w, c.pos as int);
    let k = c.stack.last();
    let d = Config {
        stack: c.stack.push(target(g, k, t)),
        trees: c.trees.push(Tree::Leaf(t)),
        pos: c.pos + 1,
    };
    lemma_targets(g);
    assert(c.stack[c.stack.len() - 1] >= 0);
    assert(expects(g, states_of(g)[k], t));
    assert forall|i: int| 0 <= i < d.stack.len() implies 0 <= #[trigger] d.stack[i] < states_of(
        g,
    ).len() by {
        if i < c.stack.len() {
            assert(c.stack[i] >= 0);
        }
    }
    assert forall|i: int| 0 <= i < d.trees.len() implies states_of(g)[d.stack[i + 1]] == goto(
        g,
        states_of(g)[d.stack[i]],
        root(g, #[trigger] d.trees[i]),
    ) by {
        if i < c.trees.len() {
            assert(root(g, c.trees[i]) == root(g, d.trees[i]));
        }
    }
    assert forall|i: int| 0 <= i < d.trees.len() implies derived(g, #[trigger] d.trees[i]) by {
        if i < c.trees.len() {
            assert(d.trees[i] == c.trees[i]);
        }
    }
    lemma_fringes_push(c.trees, Tree::Leaf(t));
    assert(tokens(w, c.pos + 1) =~= tokens(w, c.pos) + seq![t]);
}

/// A reduction keeps what holds, and there is one wherever the tables say so.
proof fn lemma_reduce_sound(g: GrammarView, w: Seq<usize>, c: Config, r: int)
    requires
        complete(g),
        sound(g, w, c),
        can_reduce(g, c.stack.last(), token(w, c.pos as int), r),
    ensures
        ({
            let n = c.trees.len() - g.rules[r].rhs.len();
            let below = c.stack.take(n + 1);
            let lhs = g.rules[r].lhs;
            &&& n >= 0
            &&& goto_row(g, below.last()).dom().contains(lhs)
            &&& sound(
                g,
                w,
                Config {
                    stack: below.push(target(g, below.last(), lhs)),
                    trees: c.trees.take(n).push(Tree::Node(r, c.trees.skip(n))),
                    pos: c.pos,
                },
            )
        }),
{
    let k = c.stack.last();
    let it = done_item(g, r);
    let last = c.stack.len() - 1;
    let lhs = g.rules[r].lhs;
    assert(wf_rule(g, g.rules[r]));
    assert(c.stack[last] == k);
    lemma_path(g, c, last, it);
    let n = c.trees.len() - g.rules[r].rhs.len();
    let below = c.stack.take(n + 1);
    assert(below.last() == c.stack[n]);
    assert(c.stack[n] >= 0);
    let s = states_of(g)[c.stack[n]];
    assert(s.contains(fresh_item(r)));
    lemma_fresh_expected(g, c, n, r);
    lemma_targets(g);
    let kids = c.trees.skip(n);
    let node = Tree::Node(r, kids);
    let d = Config {
        stack: below.push(target(g, below.last(), lhs)),
        trees: c.trees.take(n).push(node),
        pos: c.pos,
    };
    assert(roots(g, kids) =~= g.rules[r].rhs) by {
        assert forall|j: int| 0 <= j < kids.len() implies roots(g, kids)[j]
            == #[trigger] g.rules[r].rhs[j] by {
            assert(kids[j] == c.trees[n + j]);
        }
    }
    assert(all_derived(g, kids)) by {
        assert forall|j: int| 0 <= j < kids.len() implies derived(g, #[trigger] kids[j]) by {
            assert(kids[j] == c.trees[n + j]);
        }
    }
    assert(derived(g, node));
    assert forall|i: int| 0 <= i < d.trees.len() implies derived(g, #[trigger] d.trees[i]) by {
        if i < n {
            assert(d.trees[i] == c.trees[i]);
        }
    }
    assert forall|i: int| 0 <= i < d.stack.len() implies 0 <= #[trigger] d.stack[i] < states_of(
        g,
    ).len() by {
        if i <= n {
            assert(d.stack[i] == c.stack[i]);
        }
    }
    assert forall|i: int| 0 <= i < d.trees.len() implies states_of(g)[d.stack[i + 1]] == goto(
        g,
        states_of(g)[d.stack[i]],
        root(g, #[trigger] d.trees[i]),
    ) by {
        if i < n {
            assert(d.trees[i] == c.trees[i]);
            assert(d.stack[i] == c.stack[i]);
            assert(d.stack[i + 1] == c.stack[i + 1]);
        }
    }
    lemma_fringes_push(c.trees.take(n), node);
    lemma_fringes_add(c.trees.take(n), kids);
    assert(c.trees.take(n) + kids =~= c.trees);
}

/// Where a rule stands with its mark in front, its left-hand side is expected, unless it is
/// the rule for the whole input.
proof fn lemma_fresh_expected(g: GrammarView, c: Config, i: int, r: int)
    requires
        complete(g),
        linked(g, c),
        0 <= i < c.stack.len(),
        1 <= r < g.rules.len(),
        states_of(g)[c.stack[i]].contains(fresh_item(r)),
    ensures
        expects(g, states_of(g)[c.stack[i]], g.rules[r].lhs),
{
    let s = states_of(g)[c.stack[i]];
    let lhs = g.rules[r].lhs;
    lemma_states(g);
    if !expects(g, s, lhs) {
        // Without the rules of `lhs`, the state would be closed around the same items.
        let base = if i == 0 {
            set![fresh_item(0)]
        } else {
            crate::automaton::advanced(g, states_of(g)[c.stack[i - 1]], root(g, c.trees[i - 1]))
        };
        assert(c.stack[i] >= 0);
        if i == 0 {
            assert(s == closure(g, base));
        } else {
            assert(states_of(g)[c.stack[i - 1 + 1]] == goto(
                g,
                states_of(g)[c.stack[i - 1]],
                root(g, c.trees[i - 1]),
            ));
        }
        crate::automaton::lemma_closure_closed(g, base);
        let without = s.remove(fresh_item(r));
        assert(fresh_item(r).rule == r);
        assert forall|it: LR0Item| #[trigger] base.contains(it) implies without.contains(it) by {
            assert(s.contains(it));
        }
        assert(closed(g, without)) by {
            assert forall|it: LR0Item, q: int|
                #[trigger] without.contains(it) && 0 <= q < g.rules.len() && awaits(
                    g,
                    it,
                    (#[trigger] g.rules[q]).lhs,
                ) implies without.contains(fresh_item(q)) by {
                assert(s.contains(it));
                assert(s.contains(fresh_item(q)));
                assert(fresh_item(q).rule == q);
                if q == r {
                    assert(expects(g, s, lhs));
                }
            }
        }
        lemma_closure_least(g, base, without);
        assert(without.contains(fresh_item(r)));
    }
}

/// What the tables of the grammar say is what the machine finds in them.
proof fn lemma_action_in(g: GrammarView, k: int, t: usize)
    requires
        0 <= k < states_of(g).len(),
    ensures
        action_in(tables(g), k, t) == entry(g, k, t),
        tables(g).gotos[k] == goto_row(g, k),
{
    assert(tables(g).actions[k] == action_row(g, k));
}

/// At each step the stack is a path in the automaton along derivations of what has been
/// read.
pub proof fn lemma_run_sound(g: GrammarView, w: Seq<usize>, n: nat)
    requires
        complete(g),
        has_room(g),
    ensures
        run(g, tables(g), w, first_config(), n) matches Some(c) ==> sound(g, w, c),
    decreases n,
{
    let v = tables(g);
    if n == 0 {
        lemma_states(g);
        let c = first_config();
        assert(fringes(c.trees) =~= tokens(w, 0));
        assert(linked(g, c));
    } else {
        lemma_run_sound(g, w, (n - 1) as nat);
        match run(g, v, w, first_config(), (n - 1) as nat) {
            Some(d) => {
                let t = token(w, d.pos as int);
                let k = d.stack.last();
                assert(d.stack[d.stack.len() - 1] == k);
                assert(0 <= k < states_of(g).len());
                lemma_action_in(g, k, t);
                let a = entry(g, k, t);
                if a > 0 {
                    lemma_entry_allowed(g, k, t);
                    lemma_shift_sound(g, w, d);
                } else if reduces(a) {
                    lemma_entry_allowed(g, k, t);
                    let r = reduced_rule(a);
                    lemma_reduce_sound(g, w, d, r);
                    let m = d.trees.len() - g.rules[r].rhs.len();
                    let below = d.stack.take(m + 1);
                    assert(below.last() == d.stack[m]);
                    lemma_action_in(g, below.last(), t);
                    lemma_targets(g);
                }
            },
            None => {},
        }
    }
}

/// The machine accepts sentences only, and the tree that it has built then derives the
/// sentence.
pub proof fn lemma_accepts_sentences(g: GrammarView, w: Seq<usize>)
    requires
        complete(g),
        has_room(g),
        !w.contains(EOF_TOKEN),
        accepts(g, tables(g), w),
    ensures
        is_sentence(g, w),
{
    let n = choose|n: nat| accepts_after(g, tables(g), w, n);
    lemma_run_sound(g, w, n);
    let c = run(g, tables(g), w, first_config(), n)->0;
    let t = token(w, c.pos as int);
    let k = c.stack.last();
    let last = c.stack.len() - 1;
    assert(c.stack[last] == k);
    lemma_action_in(g, k, t);
    lemma_entry_allowed(g, k, t);
    assert(can_accept(g, k, t));
    assert(wf_rule(g, g.rules[0]));
    let it = done_item(g, 0);
    lemma_path(g, c, last, it);
    assert(g.rules[0].rhs.len() == 2);
    lemma_bottom(g, c, last - 2);
    assert(c.trees.len() == 2);
    let tree = c.trees[0];
    let end = c.trees[1];
    assert(g.rules[0].rhs[0] == g.start->0);
    assert(g.rules[0].rhs[1] == EOF_TOKEN);
    assert(root(g, tree) == g.start->0);
    assert(root(g, end) == EOF_TOKEN);
    assert(derived(g, c.trees[0]) && derived(g, c.trees[1]));
    match end {
        Tree::Node(r, kids) => {
            assert(wf_rule(g, g.rules[r]));
            assert(false);
        },
        Tree::Leaf(x) => {},
    }
    assert(fringe(end) == seq![EOF_TOKEN]);
    let u = fringe(tree);
    assert(fringes(c.trees) =~= u + seq![EOF_TOKEN]) by {
        let none = Seq::<Tree>::empty();
        lemma_fringes_push(none, tree);
        lemma_fringes_push(none.push(tree), end);
        assert(c.trees =~= none.push(tree).push(end));
        assert(fringes(none) =~= Seq::<usize>::empty());
    }
    let read = tokens(w, c.pos);
    assert(read.len() == u.len() + 1);
    assert(g.rules[0].rhs[0] != g.augmented_start);
    assert(u.len() == w.len()) by {
        if u.len() < w.len() {
            assert(read[u.len() as int] == EOF_TOKEN);
            assert(w[u.len() as int] == EOF_TOKEN);
            assert(w.contains(w[u.len() as int]));
        }
        if u.len() > w.len() {
            let i = w.len() as int;
            assert(read[i] == EOF_TOKEN);
            assert(u[i] == EOF_TOKEN);
            lemma_fringe_without_end(g, tree, i);
        }
    }
    assert(u =~= w) by {
        assert forall|i: int| 0 <= i < w.len() implies u[i] == w[i] by {
            assert(read[i] == u[i]);
        }
    }
    assert(parses(g, tree, w));
}

// ---------------------------------------------------------------------------
// Sentences are accepted where the tables leave nothing out
// ---------------------------------------------------------------------------

/// Steps behind steps.
proof fn lemma_run_add(
    g: GrammarView,
    v: TableView,
    w: Seq<usize>,
    c: Config,
    d: Config,
    m: nat,
    n: nat,
)
    requires
        run(g, v, w, c, m) == Some(d),
    ensures
        run(g, v, w, c, m + n) == run(g, v, w, d, n),
    decreases n,
{
    if n > 0 {
        lemma_run_add(g, v, w, c, d, m, (n - 1) as nat);
        assert((m + n - 1) as nat == m + (n - 1) as nat);
    }
}

/// Whether the machine is to read `u` next.
pub open spec fn reads_next(w: Seq<usize>, p: nat, u: Seq<usize>) -> bool {
    forall|i: int| 0 <= i < u.len() ==> token(w, p + i) == #[trigger] u[i]
}

/// Where the machine is once it has derived the tree.
pub open spec fn with_tree(g: GrammarView, c: Config, t: Tree) -> Config {
    Config {
        stack: c.stack.push(target(g, c.stack.last(), root(g, t))),
        trees: c.trees.push(t),
        pos: c.pos + fringe(t).len(),
    }
}

/// A derivation more keeps the stack a path in the automaton.
proof fn lemma_with_tree_linked(g: GrammarView, c: Config, t: Tree)
    requires
        complete(g),
        linked(g, c),
        expects(g, states_of(g)[c.stack.last()], root(g, t)),
    ensures
        linked(g, with_tree(g, c, t)),
{
    let d = with_tree(g, c, t);
    lemma_targets(g);
    assert(c.stack[c.stack.len() - 1] >= 0);
    assert forall|i: int| 0 <= i < d.stack.len() implies 0 <= #[trigger] d.stack[i] < states_of(
        g,
    ).len() by {
        if i < c.stack.len() {
            assert(c.stack[i] >= 0);
        }
    }
    assert forall|i: int| 0 <= i < d.trees.len() implies states_of(g)[d.stack[i + 1]] == goto(
        g,
        states_of(g)[d.stack[i]],
        root(g, #[trigger] d.trees[i]),
    ) by {
        if i < c.trees.len() {
            assert(root(g, c.trees[i]) == root(g, d.trees[i]));
        }
    }
}

/// The machine derives a tree whose root the state expects, where what the tree derives is
/// next and what is behind it may follow.
proof fn lemma_derives_tree(g: GrammarView, w: Seq<usize>, c: Config, t: Tree) -> (n: nat)
    requires
        complete(g),
        has_room(g),
        faithful(g),
        linked(g, c),
        derived(g, t),
        expects(g, states_of(g)[c.stack.last()], root(g, t)),
        reads_next(w, c.pos, fringe(t)),
        t is Node ==> follow_of(g).contains(
            (root(g, t), token(w, (c.pos + fringe(t).len()) as int)),
        ),
    ensures
        run(g, tables(g), w, c, n) == Some(with_tree(g, c, t)),
    decreases t, 0nat,
{
    let v = tables(g);
    let k = c.stack.last();
    let s = states_of(g)[k];
    lemma_states(g);
    lemma_targets(g);
    assert(c.stack[c.stack.len() - 1] == k);
    match t {
        Tree::Leaf(x) => {
            assert(fringe(t)[0] == x);
            assert(token(w, c.pos + 0int) == x);
            lemma_action_in(g, k, x);
            assert(can_shift(g, k, x));
            assert(run(g, v, w, c, 0) == Some(c));
            assert(run(g, v, w, c, 1) == step(g, v, w, c));
            1
        },
        Tree::Node(r, kids) => {
            let lhs = g.rules[r].lhs;
            let it = choose|it: LR0Item| #[trigger] s.contains(it) && awaits(g, it, lhs);
            assert(is_item(g, it));
            assert(g.rules[it.rule as int].rhs[it.dot as int] != g.augmented_start);
            assert(r != 0);
            lemma_state_closed(g, k);
            assert(s.contains(fresh_item(r)));
            assert(wf_rule(g, g.rules[r]));
            assert(roots(g, kids).len() == kids.len());
            assert(kids.take(kids.len() as int) =~= kids);
            let (m, d) = lemma_derives_kids(g, w, c, r, kids, kids.len());
            let la = token(w, d.pos as int);
            let kd = d.stack.last();
            assert(d.stack[d.stack.len() - 1] == kd);
            assert(can_reduce(g, kd, la, r));
            lemma_action_in(g, kd, la);
            let a = entry(g, kd, la);
            assert(a == reduce_by(r));
            assert(reduces(a) && reduced_rule(a) == r);
            let e = d.trees.len() - g.rules[r].rhs.len();
            assert(e == c.trees.len());
            let below = d.stack.take(e + 1);
            assert(below =~= c.stack);
            lemma_action_in(g, k, la);
            assert(goto_row(g, k).dom().contains(lhs));
            assert(d.trees.take(e) =~= c.trees);
            assert(d.trees.skip(e) =~= kids);
            assert(step(g, v, w, d) == Some(with_tree(g, c, t)));
            assert(run(g, v, w, c, m + 1) == step(g, v, w, d));
            m + 1
        },
    }
}

/// The machine derives the first `j` trees below a rule.
proof fn lemma_derives_kids(
    g: GrammarView,
    w: Seq<usize>,
    c: Config,
    r: int,
    kids: Seq<Tree>,
    j: nat,
) -> (res: (nat, Config))
    requires
        complete(g),
        has_room(g),
        faithful(g),
        linked(g, c),
        0 <= r < g.rules.len(),
        roots(g, kids) == g.rules[r].rhs,
        all_derived(g, kids),
        states_of(g)[c.stack.last()].contains(fresh_item(r)),
        reads_next(w, c.pos, fringes(kids)),
        follow_of(g).contains(
            (g.rules[r].lhs, token(w, (c.pos + fringes(kids).len()) as int)),
        ),
        j <= kids.len(),
    ensures
        ({
            let (n, d) = res;
            &&& run(g, tables(g), w, c, n) == Some(d)
            &&& linked(g, d)
            &&& d.trees == c.trees + kids.take(j as int)
            &&& d.stack.take(c.stack.len() as int) == c.stack
            &&& d.pos == c.pos + fringes(kids.take(j as int)).len()
            &&& states_of(g)[d.stack.last()].contains(
                LR0Item { rule: r as usize, dot: j as usize },
            )
        }),
    decreases kids, j,
{
    let v = tables(g);
    if j == 0 {
        assert(kids.take(0) =~= Seq::<Tree>::empty());
        assert(c.trees + kids.take(0) =~= c.trees);
        assert(c.stack.take(c.stack.len() as int) =~= c.stack);
        assert(fringes(kids.take(0)).len() == 0);
        (0, c)
    } else {
        let i = (j - 1) as nat;
        let (n, d) = lemma_derives_kids(g, w, c, r, kids, i);
        let t = kids[j - 1];
        let rhs = g.rules[r].rhs;
        let x = root(g, t);
        assert(roots(g, kids)[j - 1] == x);
        assert(derived(g, kids[j - 1]));
        assert(wf_rule(g, g.rules[r]));
        let it = LR0Item { rule: r as usize, dot: i as usize };
        let k = d.stack.last();
        let s = states_of(g)[k];
        assert(awaits(g, it, x));
        assert(s.contains(it) && awaits(g, it, x));
        assert(expects(g, s, x));
        let first_part = kids.take(i as int);
        let rest = kids.skip(j as int);
        lemma_fringes_push(first_part, t);
        assert(kids.take(j as int) =~= first_part.push(t));
        lemma_fringes_add(kids.take(j as int), rest);
        assert(kids.take(j as int) + rest =~= kids);
        let u = fringes(first_part);
        let f = fringe(t);
        let z = fringes(rest);
        assert(fringes(kids) == u + f + z);
        assert(reads_next(w, d.pos, f)) by {
            assert forall|q: int| 0 <= q < f.len() implies token(w, d.pos + q) == #[trigger] f[q] by {
                assert(fringes(kids)[u.len() + q] == f[q]);
            }
        }
        let la = token(w, (d.pos + f.len()) as int);
        if t is Node {
            assert(follow_of(g).contains((x, la))) by {
                lemma_behind(g, r, j - 1, kids, la);
                lemma_follow_closed(g, first(g));
                let ww = follow_of(g);
                assert(g.rules[r].rhs[j - 1] == x);
                assert(follow_closed_at(first(g), ww, g.rules[r], j - 1));
                let begin = first_of(first(g), rhs.skip(j - 1 + 1));
                if z.len() > 0 {
                    assert(fringes(kids)[(u.len() + f.len()) as int] == z[0]);
                    assert(la == z[0]);
                    assert(begin.contains(la));
                } else {
                    assert(fringes(kids).len() == u.len() + f.len());
                    assert(begin.contains(EPSILON));
                    assert(ww.contains((g.rules[r].lhs, la)));
                }
            }
        }
        let m = lemma_derives_tree(g, w, d, t);
        let e = with_tree(g, d, t);
        lemma_run_add(g, v, w, c, d, n, m);
        lemma_with_tree_linked(g, d, t);
        lemma_targets(g);
        assert(d.stack[d.stack.len() - 1] == k);
        lemma_goto_advances(g, s, x, it);
        assert(e.trees =~= c.trees + kids.take(j as int));
        assert(e.stack.take(c.stack.len() as int) =~= c.stack) by {
            assert forall|q: int| 0 <= q < c.stack.len() implies e.stack[q] == c.stack[q] by {
                assert(d.stack.take(c.stack.len() as int)[q] == c.stack[q]);
            }
        }
        (n + m, e)
    }
}

/// What is behind a symbol in a rule is in FIRST of the rest.
proof fn lemma_behind(g: GrammarView, r: int, i: int, kids: Seq<Tree>, la: usize)
    requires
        complete(g),
        0 <= r < g.rules.len(),
        roots(g, kids) == g.rules[r].rhs,
        all_derived(g, kids),
        0 <= i < kids.len(),
        kids[i] is Node,
    ensures
        ({
            let z = fringes(kids.skip(i + 1));
            let begin = first_of(first(g), g.rules[r].rhs.skip(i + 1));
            &&& z.len() == 0 ==> begin.contains(EPSILON)
            &&& z.len() > 0 ==> begin.contains(z[0]) && z[0] != EPSILON
        }),
        g.nonterminals.contains(g.rules[r].rhs[i]),
{
    let rest = kids.skip(i + 1);
    assert(all_derived(g, rest)) by {
        assert forall|q: int| 0 <= q < rest.len() implies derived(g, #[trigger] rest[q]) by {
            assert(rest[q] == kids[i + 1 + q]);
        }
    }
    lemma_all_partly(g, rest);
    lemma_first_of_trees(g, rest);
    if fringes(rest).len() > 0 {
        lemma_fringes_terminal(g, rest, 0);
    }
    assert(roots(g, rest) =~= g.rules[r].rhs.skip(i + 1)) by {
        assert forall|q: int| 0 <= q < rest.len() implies roots(g, rest)[q] == g.rules[r].rhs.skip(
            i + 1,
        )[q] by {
            assert(roots(g, kids)[i + 1 + q] == g.rules[r].rhs[i + 1 + q]);
        }
    }
    assert(derived(g, kids[i]));
    assert(roots(g, kids)[i] == root(g, kids[i]));
    match kids[i] {
        Tree::Node(q, _) => {
            assert(wf_rule(g, g.rules[q]));
        },
        Tree::Leaf(_) => {},
    }
}

/// Where the tables leave nothing out, the machine accepts every sentence.
pub proof fn lemma_sentences_accepted(g: GrammarView, w: Seq<usize>)
    requires
        complete(g),
        has_room(g),
        faithful(g),
        is_sentence(g, w),
    ensures
        accepts(g, tables(g), w),
{
    let v = tables(g);
    let t = choose|t: Tree| parses(g, t, w);
    let c = first_config();
    let start = g.start->0;
    lemma_states(g);
    assert(linked(g, c));
    assert(wf_rule(g, g.rules[0]));
    let s = states_of(g)[0];
    crate::automaton::lemma_closure_closed(g, set![fresh_item(0)]);
    assert(set![fresh_item(0)].contains(fresh_item(0)));
    assert(s.contains(fresh_item(0)));
    assert(g.rules[0].rhs[0] == start);
    assert(g.rules[0].rhs[1] == EOF_TOKEN);
    assert(awaits(g, fresh_item(0), start));
    assert(expects(g, s, start));
    lemma_follow_closed(g, first(g));
    assert(reads_next(w, 0, fringe(t)));
    let m = lemma_derives_tree(g, w, c, t);
    let d = with_tree(g, c, t);
    lemma_with_tree_linked(g, c, t);
    lemma_targets(g);
    lemma_goto_advances(g, s, start, fresh_item(0));
    let one = LR0Item { rule: 0, dot: 1 };
    let sd = states_of(g)[d.stack.last()];
    assert(sd.contains(one));
    assert(awaits(g, one, EOF_TOKEN));
    assert(expects(g, sd, EOF_TOKEN));
    let end = Tree::Leaf(EOF_TOKEN);
    assert(reads_next(w, d.pos, fringe(end)));
    let n = lemma_derives_tree(g, w, d, end);
    let e = with_tree(g, d, end);
    lemma_with_tree_linked(g, d, end);
    lemma_run_add(g, v, w, c, d, m, n);
    assert(d.stack[d.stack.len() - 1] >= 0);
    lemma_goto_advances(g, sd, EOF_TOKEN, one);
    let se = states_of(g)[e.stack.last()];
    assert(done_item(g, 0) == LR0Item { rule: 0, dot: 2 });
    assert(se.contains(done_item(g, 0)));
    assert(e.stack[e.stack.len() - 1] >= 0);
    let la = token(w, e.pos as int);
    assert(la == EOF_TOKEN);
    lemma_entry_accepts(g, e.stack.last(), la);
    lemma_action_in(g, e.stack.last(), la);
    assert(accepts_after(g, v, w, m + n));
}

/// Where no token has a precedence and no conflict is reported, the machine accepts just
/// the sentences of the grammar.
pub proof fn lemma_accepts_language(g: GrammarView, w: Seq<usize>)
    requires
        complete(g),
        has_room(g),
        forall|t: usize| #[trigger] g.tokens.dom().contains(t) ==> g.tokens[t].prec == 0,
        tables(g).sr_conflicts == 0,
        tables(g).rr_conflicts == 0,
        !w.contains(EOF_TOKEN),
    ensures
        accepts(g, tables(g), w) <==> is_sentence(g, w),
{
    lemma_faithful(g);
    if accepts(g, tables(g), w) {
        lemma_accepts_sentences(g, w);
    }
    if is_sentence(g, w) {
        lemma_sentences_accepted(g, w);
    }
}

} // verus!
