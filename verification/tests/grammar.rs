//! Symbols, tokens, precedence and character literals.

use bison::grammar::{parse_char_literal, Assoc, Grammar, Rule, TokenInfo};
use bison::lexer::YaccParser;

fn read(text: &str) -> Grammar {
    let mut parser = YaccParser::new(text);
    assert!(parser.try_parse().is_ok());
    parser.grammar
}

fn symbol(g: &Grammar, name: &str) -> usize {
    g.symbols.iter().position(|s| s == name).unwrap()
}

#[test]
fn new_grammar_knows_the_reserved_tokens() {
    let g = Grammar::new();
    assert_eq!(g.symbols, vec!["$end".to_string(), "error".to_string()]);
    assert!(g.is_terminal(0) && g.is_terminal(1));
    assert!(!g.is_nonterminal(0) && !g.is_nonterminal(1));
    assert_eq!(g.token_c_value(0), 0);
    assert_eq!(g.token_c_value(1), 256);
    assert_eq!(g.next_token_value, 258);
    assert_eq!(g.next_prec, 1);
}

#[test]
fn interning_twice_gives_one_symbol() {
    let mut g = Grammar::new();
    let a = g.intern_symbol("a");
    assert_eq!(g.intern_symbol("a"), a);
    assert_eq!(g.symbols.len(), 3);
    assert_eq!(g.symbol_name(a), "a");
}

#[test]
fn interning_keeps_names_apart() {
    let mut g = Grammar::new();
    let a = g.intern_symbol("a");
    let b = g.intern_symbol("b");
    assert_ne!(a, b);
    assert_eq!(g.symbol_name(a), "a");
    assert_eq!(g.symbol_name(b), "b");
    assert_eq!(g.intern_symbol("error"), 1);
}

#[test]
fn character_literals() {
    assert_eq!(parse_char_literal(""), None);
    assert_eq!(parse_char_literal("x"), Some('x'));
    assert_eq!(parse_char_literal("xy"), Some('x'));
    assert_eq!(parse_char_literal("\\"), None);
    assert_eq!(parse_char_literal("\\n"), Some('\n'));
    assert_eq!(parse_char_literal("\\t"), Some('\t'));
    assert_eq!(parse_char_literal("\\r"), Some('\r'));
    assert_eq!(parse_char_literal("\\\\"), Some('\\'));
    assert_eq!(parse_char_literal("\\'"), Some('\''));
    assert_eq!(parse_char_literal("\\0"), Some('\0'));
    assert_eq!(parse_char_literal("\\a"), Some('\x07'));
    assert_eq!(parse_char_literal("\\b"), Some('\x08'));
    assert_eq!(parse_char_literal("\\f"), Some('\x0C'));
    assert_eq!(parse_char_literal("\\v"), Some('\x0B'));
    assert_eq!(parse_char_literal("\\q"), Some('q'));
    assert_eq!(parse_char_literal("é"), Some('é'));
}

#[test]
fn values_of_symbols() {
    let g = read("%token A 400\n%%\ns: A '+' '\\n' ;\n");
    assert_eq!(g.token_c_value(symbol(&g, "A")), 400);
    assert_eq!(g.token_c_value(symbol(&g, "'+'")), 43);
    assert_eq!(g.token_c_value(symbol(&g, "'\\n'")), 10);
    // A nonterminal has no number of its own.
    assert_eq!(g.token_c_value(symbol(&g, "s")), symbol(&g, "s") as i32);
}

#[test]
fn value_of_a_literal_that_is_no_token() {
    let mut g = Grammar::new();
    let sym = g.intern_symbol("'q'");
    assert_eq!(g.token_c_value(sym), 'q' as i32);
    let short = g.intern_symbol("''");
    assert_eq!(g.token_c_value(short), short as i32);
}

#[test]
fn precedence_of_rules() {
    let g = read("%left '+'\n%right '*'\n%token N\n%%\ne: e '+' e | e '*' e N | '+' e %prec '*' | N ;\n");
    assert_eq!(g.rule_prec(&g.rules[1]), (1, Assoc::Left));
    // The last terminal counts, also where it has no precedence.
    assert_eq!(g.rule_prec(&g.rules[2]), (0, Assoc::Unset));
    assert_eq!(g.rule_prec(&g.rules[3]), (2, Assoc::Right));
    assert_eq!(g.rule_prec(&g.rules[4]), (0, Assoc::Unset));
    let h = read("%left '+'\n%token T\n%%\ne: e '+' T ;");
    assert_eq!(h.rule_prec(&h.rules[1]), (0, Assoc::Unset));
}

#[test]
fn associativity_without_precedence_counts_for_nothing() {
    let mut p = YaccParser::new("T");
    assert!(p.parse_token_decl(Assoc::Left, 0).is_ok());
    let g = p.grammar;
    let t = symbol(&g, "T");
    assert_eq!((g.token_info[&t].prec, g.token_info[&t].assoc), (0, Assoc::Left));
    let mut rule = Rule {
        lhs: t,
        rhs: vec![t],
        action: String::new(),
        action_line: 0,
        prec_sym: None,
        rule_number: 0,
    };
    assert_eq!(g.rule_prec(&rule), (0, Assoc::Unset));
    rule.prec_sym = Some(t);
    assert_eq!(g.rule_prec(&rule), (0, Assoc::Left));
}

#[test]
fn named_precedence_without_a_token_counts_for_nothing() {
    let g = read("%left '+'\n%%\ne: e '+' e %prec LATER | 'n' ;\n");
    assert_eq!(g.rule_prec(&g.rules[1]), (1, Assoc::Left));
}

#[test]
fn tokens_rules_and_tags_can_be_added() {
    let mut g = Grammar::new();
    let t = g.intern_symbol("T");
    let n = g.intern_symbol("n");
    g.raise(2, 300);
    g.add_token(
        t,
        TokenInfo {
            name: "T".to_string(),
            value: Some(299),
            tag: Some("num".to_string()),
            prec: 1,
            assoc: Assoc::NonAssoc,
            is_literal: false,
        },
    );
    g.add_nonterminal(n);
    g.add_tag(n, &"str".to_string());
    g.add_rule(Rule {
        lhs: n,
        rhs: vec![t],
        action: String::new(),
        action_line: 1,
        prec_sym: None,
        rule_number: 0,
    });
    assert!(g.is_terminal(t) && g.is_nonterminal(n));
    assert_eq!(g.token_c_value(t), 299);
    assert_eq!(g.type_tags[&t], "num");
    assert_eq!(g.type_tags[&n], "str");
    assert_eq!(g.rule_prec(&g.rules[0]), (1, Assoc::NonAssoc));
}

#[test]
fn grammar_as_text() {
    let g = read("%token A B\n%%\ns: A s B | ;\n");
    let mut out = String::new();
    g.fmt(&mut out);
    assert_eq!(
        out,
        "Grammar (6 symbols, 3 rules):\n  R0: $accept -> s $end\n  R1: s -> A s B\n  R2: s -> (empty)\n"
    );
}
