//! FIRST and FOLLOW, states, and tables.

use bison::automaton::{find_states, position, ItemSet, LR0Item};
use bison::grammar::Grammar;
use bison::lexer::YaccParser;
use bison::sets::EPSILON;
use bison::tables::{TableGenerator, ACCEPT_ACTION, ERROR_ACTION};
use std::collections::BTreeSet;

fn read(text: &str) -> Grammar {
    let mut parser = YaccParser::new(text);
    assert!(parser.try_parse().is_ok());
    parser.grammar
}

fn symbol(g: &Grammar, name: &str) -> usize {
    g.symbols.iter().position(|s| s == name).unwrap()
}

fn set(items: &[usize]) -> BTreeSet<usize> {
    items.iter().cloned().collect()
}

const LL: &str = "%%\ne: t r ;\nr: '+' t r | ;\nt: f u ;\nu: '*' f u | ;\nf: '(' e ')' | N ;\n";

#[test]
fn first_sets() {
    let g = read(LL);
    let mut t = TableGenerator::new(&g);
    t.compute_first_sets();
    let s = |n: &str| symbol(&g, n);
    for x in ["e", "t", "f"] {
        assert_eq!(t.first_sets[s(x)], set(&[s("'('"), s("N")]), "{}", x);
    }
    assert_eq!(t.first_sets[s("r")], set(&[s("'+'"), EPSILON]));
    assert_eq!(t.first_sets[s("u")], set(&[s("'*'"), EPSILON]));
    assert_eq!(t.first_sets[s("N")], set(&[s("N")]));
}

#[test]
fn first_of_strings() {
    let g = read(LL);
    let mut t = TableGenerator::new(&g);
    t.compute_first_sets();
    let s = |n: &str| symbol(&g, n);
    assert_eq!(t.first_of_string(&[]), set(&[EPSILON]));
    assert_eq!(t.first_of_string(&[s("u"), s("r")]), set(&[s("'*'"), s("'+'"), EPSILON]));
    assert_eq!(t.first_of_string(&[s("u"), s("')'"), s("r")]), set(&[s("'*'"), s("')'")]));
}

#[test]
fn follow_sets() {
    let g = read(LL);
    let mut t = TableGenerator::new(&g);
    t.compute_first_sets();
    t.compute_follow_sets();
    let s = |n: &str| symbol(&g, n);
    assert_eq!(t.follow_sets[s("e")], set(&[0, s("')'")]));
    assert_eq!(t.follow_sets[s("r")], set(&[0, s("')'")]));
    assert_eq!(t.follow_sets[s("t")], set(&[0, s("'+'"), s("')'")]));
    assert_eq!(t.follow_sets[s("u")], set(&[0, s("'+'"), s("')'")]));
    assert_eq!(t.follow_sets[s("f")], set(&[0, s("'+'"), s("'*'"), s("')'")]));
    assert_eq!(t.follow_sets[s("$accept")], set(&[0]));
    assert!(t.follow_sets[s("N")].is_empty());
}

#[test]
fn item_sets_are_in_order() {
    let mut s = ItemSet::new();
    assert!(s.insert(LR0Item { rule: 2, dot: 1 }));
    assert!(s.insert(LR0Item { rule: 0, dot: 3 }));
    assert!(s.insert(LR0Item { rule: 2, dot: 0 }));
    assert!(!s.insert(LR0Item { rule: 2, dot: 1 }));
    let pairs: Vec<(usize, usize)> = s.items.iter().map(|i| (i.rule, i.dot)).collect();
    assert_eq!(pairs, vec![(0, 3), (2, 0), (2, 1)]);
    let c = s.copy();
    assert!(c.same(&s));
    s.insert(LR0Item { rule: 9, dot: 0 });
    assert!(!c.same(&s));
}

fn items(pairs: &[(usize, usize)]) -> ItemSet {
    let mut s = ItemSet::new();
    for &(rule, dot) in pairs {
        s.insert(LR0Item { rule, dot });
    }
    s
}

#[test]
fn closures_and_gotos() {
    // 0: $accept -> s $end, 1: s -> A s B, 2: s ->
    let g = read("%token A B\n%%\ns: A s B | ;\n");
    let t = TableGenerator::new(&g);
    let start = t.closure(&items(&[(0, 0)]));
    assert!(start.same(&items(&[(0, 0), (1, 0), (2, 0)])));
    let again = t.closure(&start);
    assert!(again.same(&start));
    let a = t.goto_set(&start, symbol(&g, "A"));
    assert!(a.same(&items(&[(1, 0), (1, 1), (2, 0)])));
    let s = t.goto_set(&start, symbol(&g, "s"));
    assert!(s.same(&items(&[(0, 1)])));
    assert!(t.goto_set(&start, symbol(&g, "B")).same(&ItemSet::new()));
}

#[test]
fn states_in_the_order_in_which_they_are_found() {
    let g = read("%token A B\n%%\ns: A s B | ;\n");
    let mut t = TableGenerator::new(&g);
    t.build_states();
    let want = vec![
        items(&[(0, 0), (1, 0), (2, 0)]),
        items(&[(1, 0), (1, 1), (2, 0)]),
        items(&[(0, 1)]),
        items(&[(1, 2)]),
        items(&[(0, 2)]),
        items(&[(1, 3)]),
    ];
    assert_eq!(t.states.len(), want.len());
    for (a, b) in t.states.iter().zip(want.iter()) {
        assert!(a.same(b));
    }
    // What is reached from a state is a state, and no two states are the same.
    for (i, s) in t.states.iter().enumerate() {
        assert_eq!(position(&t.states, s), i);
        for x in 0..g.symbols.len() {
            let next = t.goto_set(s, x);
            if !next.items.is_empty() {
                assert!(position(&t.states, &next) < t.states.len());
            }
        }
    }
    assert_eq!(find_states(&g).len(), 6);
}

#[test]
fn tables_of_a_small_grammar() {
    let g = read("%token A B\n%%\ns: A s B | ;\n");
    let mut t = TableGenerator::new(&g);
    t.generate();
    let (a, b) = (symbol(&g, "A"), symbol(&g, "B"));
    assert_eq!(t.action_table[0][&a], 2);
    assert_eq!(t.action_table[0][&b], -3);
    assert_eq!(t.action_table[0][&0], -3);
    assert_eq!(t.action_table[2][&0], 5);
    assert_eq!(t.action_table[4][&0], ACCEPT_ACTION);
    assert_eq!(t.action_table[4].len(), 1);
    assert_eq!(t.action_table[5][&b], -2);
    assert_eq!(t.goto_table[0][&symbol(&g, "s")], 2);
    assert_eq!(t.goto_table[1][&symbol(&g, "s")], 3);
    assert_eq!((t.sr_conflicts, t.rr_conflicts), (0, 0));
}

#[test]
fn conflict_between_shift_and_reduce() {
    // Nothing says how the two readings of `e '+' e '+' e` go, so the token is shifted.
    let g = read("%%\ne: e '+' e | N ;\n");
    let mut t = TableGenerator::new(&g);
    assert!(t.try_generate());
    assert_eq!((t.sr_conflicts, t.rr_conflicts), (1, 0));
    let plus = symbol(&g, "'+'");
    let k = t.states.iter().position(|s| s.same(&items(&[(1, 1), (1, 3)]))).unwrap();
    assert!(t.action_table[k][&plus] > 0);
}

#[test]
fn precedence_settles_conflicts() {
    for (decl, action) in [
        ("%left '+'", Some(-2)),
        ("%right '+'", None),
        ("%nonassoc '+'", Some(ERROR_ACTION)),
    ] {
        let g = read(&format!("{}\n%%\ne: e '+' e | N ;\n", decl));
        let mut t = TableGenerator::new(&g);
        assert!(t.try_generate());
        assert_eq!((t.sr_conflicts, t.rr_conflicts), (0, 0), "{}", decl);
        let plus = symbol(&g, "'+'");
        let k = t.states.iter().position(|s| s.same(&items(&[(1, 1), (1, 3)]))).unwrap();
        match action {
            Some(a) => assert_eq!(t.action_table[k][&plus], a, "{}", decl),
            None => assert!(t.action_table[k][&plus] > 0),
        }
    }
}

#[test]
fn the_higher_precedence_wins() {
    let g = read("%left '+'\n%left '*'\n%%\ne: e '+' e | e '*' e | N ;\n");
    let mut t = TableGenerator::new(&g);
    assert!(t.try_generate());
    let (plus, times) = (symbol(&g, "'+'"), symbol(&g, "'*'"));
    let behind_plus =
        t.states.iter().position(|s| s.same(&items(&[(1, 1), (1, 3), (2, 1)]))).unwrap();
    let behind_times =
        t.states.iter().position(|s| s.same(&items(&[(1, 1), (2, 1), (2, 3)]))).unwrap();
    assert_eq!(t.action_table[behind_plus][&plus], -2);
    assert!(t.action_table[behind_plus][&times] > 0);
    assert_eq!(t.action_table[behind_times][&plus], -3);
    assert_eq!(t.action_table[behind_times][&times], -3);
}

#[test]
fn resolving_counts_what_is_not_settled() {
    let g = read("%left '+'\n%token N\n%%\ne: e '+' e | e N e | N ;\n");
    let (plus, n) = (symbol(&g, "'+'"), symbol(&g, "N"));
    let mut t = TableGenerator::new(&g);
    assert_eq!(t.resolve_sr_conflict(plus, 1, 7), -2);
    assert_eq!(t.sr_conflicts, 0);
    assert_eq!(t.resolve_sr_conflict(n, 1, 7), 7);
    assert_eq!(t.sr_conflicts, 1);
    assert_eq!(t.resolve_sr_conflict(plus, 2, 8), 8);
    assert_eq!(t.sr_conflicts, 2);
}

#[test]
fn the_rule_with_the_lower_number_wins() {
    let g = read("%%\ns: a | b ;\na: N ;\nb: N ;\n");
    let mut t = TableGenerator::new(&g);
    assert!(t.try_generate());
    assert_eq!((t.sr_conflicts, t.rr_conflicts), (0, 1));
    let k = t.states.iter().position(|s| s.same(&items(&[(3, 1), (4, 1)]))).unwrap();
    assert_eq!(t.action_table[k][&0], -4);
}

/// Runs the machine that the tables drive.
fn accepts(g: &Grammar, t: &TableGenerator, w: &[usize]) -> bool {
    let mut stack: Vec<usize> = vec![0];
    let mut pos = 0;
    loop {
        let next = if pos < w.len() { w[pos] } else { 0 };
        let k = *stack.last().unwrap();
        match t.action_table[k].get(&next) {
            None => return false,
            Some(&a) if a == ERROR_ACTION => return false,
            Some(&a) if a == ACCEPT_ACTION => return true,
            Some(&a) if a > 0 => {
                stack.push((a - 1) as usize);
                pos += 1;
            }
            Some(&a) => {
                let r = &g.rules[(-a - 1) as usize];
                stack.truncate(stack.len() - r.rhs.len());
                match t.goto_table[*stack.last().unwrap()].get(&r.lhs) {
                    Some(&to) => stack.push(to),
                    None => return false,
                }
            }
        }
    }
}

#[test]
fn the_machine_accepts_just_the_sentences() {
    let g = read("%token A B\n%%\ns: A s B | ;\n");
    let mut t = TableGenerator::new(&g);
    assert!(t.try_generate());
    let (a, b) = (symbol(&g, "A"), symbol(&g, "B"));
    assert_eq!((t.sr_conflicts, t.rr_conflicts), (0, 0));
    for n in 0..6 {
        for word in 0..(1usize << n) {
            let w: Vec<usize> = (0..n).map(|i| if word >> i & 1 == 1 { b } else { a }).collect();
            let sentence = n % 2 == 0 && (0..n).all(|i| (w[i] == a) == (i < n / 2));
            assert_eq!(accepts(&g, &t, &w), sentence, "{:?}", w);
        }
    }
}

#[test]
fn the_machine_accepts_expressions() {
    let g = read(LL);
    let mut t = TableGenerator::new(&g);
    assert!(t.try_generate());
    assert_eq!((t.sr_conflicts, t.rr_conflicts), (0, 0));
    let s = |n: &str| symbol(&g, n);
    let (n, plus, times, open, close) = (s("N"), s("'+'"), s("'*'"), s("'('"), s("')'"));
    assert!(accepts(&g, &t, &[n]));
    assert!(accepts(&g, &t, &[n, plus, n, times, n]));
    assert!(accepts(&g, &t, &[open, n, plus, n, close, times, n]));
    assert!(!accepts(&g, &t, &[]));
    assert!(!accepts(&g, &t, &[n, n]));
    assert!(!accepts(&g, &t, &[open, n]));
    assert!(!accepts(&g, &t, &[n, plus]));
}
