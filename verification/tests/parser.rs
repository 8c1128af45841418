//! Grammar files: declarations, rules, and what goes wrong in them.

use bison::grammar::{Assoc, Grammar};
use bison::lexer::YaccParser;
use bison::parser::ParseError;

fn read(text: &str) -> Grammar {
    let mut parser = YaccParser::new(text);
    assert!(parser.try_parse().is_ok());
    parser.grammar
}

fn failure(text: &str) -> String {
    match YaccParser::new(text).try_parse() {
        Err(ParseError::Message(m)) => m,
        Err(ParseError::Limit) => panic!("limit"),
        Ok(()) => panic!("read"),
    }
}

fn symbol(g: &Grammar, name: &str) -> usize {
    g.symbols.iter().position(|s| s == name).unwrap()
}

#[test]
fn errors_in_the_first_part() {
    assert_eq!(failure(""), "unexpected end of input in declarations");
    assert_eq!(failure("%token A\n"), "unexpected end of input in declarations");
    assert_eq!(failure("\n%type A\n%%\n"), "line 2: expected <tag> after %type");
}

#[test]
fn separator_is_expected() {
    let mut p = YaccParser::new("\n\n x");
    match p.expect_separator() {
        Err(ParseError::Message(m)) => assert_eq!(m, "line 3: expected %%"),
        _ => panic!("accepted"),
    }
    let mut q = YaccParser::new(" %%x");
    assert!(q.expect_separator().is_ok());
    assert_eq!(q.pos, 3);
}

#[test]
fn errors_in_rules() {
    assert_eq!(failure("%%\n\n: x ;"), "line 3: expected rule name");
    assert_eq!(failure("%%\ns x ;"), "line 2: expected ':' after 's'");
    assert_eq!(failure("%%\ns: x\n + y ;"), "line 3: unexpected character '+' in rule");
    assert_eq!(failure("%%\n"), "no start symbol defined");
}

#[test]
fn parse_gives_the_same_message() {
    assert_eq!(YaccParser::new("%%\n").parse(), Err("no start symbol defined".to_string()));
    assert_eq!(YaccParser::new("%%\ns: ;").parse(), Ok(()));
}

#[test]
fn limits() {
    for text in [
        "%token A 2147483647\n%%\ns: A ;",
        "%token A 2147483646 B\n%%\ns: A B ;",
        "%token A 2147483646\n%%\ns: A UNKNOWN ;",
        "%token '",
        "%%\ns: '",
        "%%\ns: 'é",
    ] {
        match YaccParser::new(text).try_parse() {
            Err(ParseError::Limit) => {}
            _ => panic!("{}", text),
        }
    }
}

#[test]
fn numbers_of_tokens() {
    let g = read("%token A B 300 C D 20 E\n%%\ns: A B C D E F 'x' ;");
    let value = |name: &str| g.token_info[&symbol(&g, name)].value;
    assert_eq!(value("A"), Some(258));
    assert_eq!(value("B"), Some(300));
    assert_eq!(value("C"), Some(301));
    assert_eq!(value("D"), Some(20));
    assert_eq!(value("E"), Some(302));
    // A symbol that nothing declares is a token with the next number.
    assert_eq!(value("F"), Some(303));
    assert_eq!(value("'x'"), Some(120));
    assert_eq!(g.next_token_value, 304);
    assert!(g.token_info[&symbol(&g, "'x'")].is_literal);
    assert!(!g.token_info[&symbol(&g, "F")].is_literal);
}

#[test]
fn numbers_in_one_list() {
    let mut p = YaccParser::new("A B 300 C 'x' D A E 5 %");
    assert!(p.parse_token_decl(Assoc::Unset, 0).is_ok());
    let g = p.grammar;
    let value = |name: &str| g.token_info[&symbol(&g, name)].value;
    // Where a name stands twice, the last place counts.
    assert_eq!(value("A"), Some(303));
    assert_eq!(value("B"), Some(300));
    assert_eq!(value("C"), Some(301));
    assert_eq!(value("D"), Some(302));
    assert_eq!(value("E"), Some(5));
    assert_eq!(g.next_token_value, 304);
    // A number that the file gives to the last of two places is the token's.
    let h = read("%token A A 5 B\n%%\ns: ;");
    assert_eq!(h.token_info[&symbol(&h, "A")].value, Some(5));
    assert_eq!(h.token_info[&symbol(&h, "B")].value, Some(259));
}

#[test]
fn a_brace_behind_a_token_is_number_zero() {
    let g = read("%token A {\n%%\ns: A ;");
    assert_eq!(g.token_info[&symbol(&g, "A")].value, Some(0));
}

#[test]
fn precedence_rises_with_each_declaration() {
    let g = read("%left '+' '-'\n%right POW\n%nonassoc '<'\n%%\ns: ;");
    let info = |name: &str| {
        let i = &g.token_info[&symbol(&g, name)];
        (i.prec, i.assoc)
    };
    assert_eq!(info("'+'"), (1, Assoc::Left));
    assert_eq!(info("'-'"), (1, Assoc::Left));
    assert_eq!(info("POW"), (2, Assoc::Right));
    assert_eq!(info("'<'"), (3, Assoc::NonAssoc));
    assert_eq!(g.next_prec, 4);
}

#[test]
fn tags_and_union() {
    let g = read("%union { int n; }\n%token <num> A\n%type <str> s t 'c'\n%%\ns: A t ;\nt: ;");
    assert_eq!(g.union_code, " int n; ");
    assert_eq!(g.type_tags[&symbol(&g, "A")], "num");
    assert_eq!(g.token_info[&symbol(&g, "A")].tag, Some("num".to_string()));
    assert_eq!(g.type_tags[&symbol(&g, "s")], "str");
    assert_eq!(g.type_tags[&symbol(&g, "t")], "str");
    assert_eq!(g.type_tags[&symbol(&g, "'c'")], "str");
}

#[test]
fn start_symbol() {
    let g = read("%%\na: b ;\nb: ;");
    assert_eq!(g.start_symbol, Some(symbol(&g, "a")));
    let h = read("%start b\n%%\na: b ;\nb: ;");
    assert_eq!(h.start_symbol, Some(symbol(&h, "b")));
    assert_eq!(h.rules[0].rhs, vec![symbol(&h, "b"), 0]);
}

#[test]
fn other_declarations() {
    let text = "%expect 3\n%defines \"x.h\"\n%output \"y.c\"\n%define api.pure full { %token\n\
                %pure-parser\n%verbose\n%error\n%destructor { free($$); } <str> ID 'c'\n\
                %printer { } x\n?? no declaration %left\n%\n%%\ns: ;";
    let g = read(text);
    assert_eq!(g.expect_conflicts, Some(3));
    assert!(g.defines);
    assert!(!g.symbols.contains(&"ID".to_string()));
    assert_eq!(g.next_prec, 1);
}

#[test]
fn a_define_ends_with_its_line() {
    let mut p = YaccParser::new("%define api.pure\n%token A\n%%");
    assert!(p.parse_declarations().is_ok());
    assert_eq!(p.grammar.symbols[2], "A");
    assert!(p.grammar.terminals.contains(&2));
    assert_eq!(p.grammar.token_info[&2].value, Some(258));
    let g = read("%define api.value.type {int} %token A\n%token B\n%%\ns: ;");
    assert_eq!(g.symbols[2], "B");
}

#[test]
fn comments_behind_the_key_of_a_define() {
    let symbols = |text: &str| {
        let mut p = YaccParser::new(text);
        assert!(p.parse_declarations().is_ok());
        assert!(p.warnings.is_empty());
        p.grammar.symbols[2..].to_vec()
    };
    // What stands inside a comment is not read, and the value may stand behind it.
    assert!(symbols("%define k /*\n%token X\n*/ v\n%%").is_empty());
    assert!(symbols("%define k /* a\n */ \t/* b\n%token X */ v %token Y\n%%").is_empty());
    // A line feed outside comments ends the directive.
    assert_eq!(symbols("%define k /*\n%token X\n*/\n%token Y\n%%"), vec!["Y"]);
    assert_eq!(symbols("%define k /* c */ \n%token Y\n%%"), vec!["Y"]);
    assert_eq!(symbols("%define k // c /*\n%token Y\n%%"), vec!["Y"]);
    // The value goes to the end of its line, whatever stands in it.
    assert_eq!(symbols("%define k v /*\n%token Y\n%%"), vec!["Y"]);
    // A comment without an end takes the rest of the text.
    let mut p = YaccParser::new("%define k /*\n%token X\n%%");
    assert!(p.parse_declarations().is_err());
    assert_eq!(p.grammar.symbols.len(), 2);
}

#[test]
fn pure_parser_on_one_line_with_another_declaration() {
    for text in [
        "%pure-parser %token A\n%%",
        "%pure %token A\n%%",
        "%pure_parser %token A\n%%",
        "%pure-parser\n%token A\n%%",
    ] {
        let mut p = YaccParser::new(text);
        assert!(p.parse_declarations().is_ok());
        assert_eq!(p.grammar.symbols[2], "A", "{}", text);
        assert_eq!(p.grammar.token_info[&2].value, Some(258));
    }
    // What only begins like the suffix is no part of the directive.
    let mut p = YaccParser::new("%pure-parse %token A\n%token B\n%%");
    assert!(p.parse_declarations().is_ok());
    assert_eq!(p.grammar.symbols[2], "B");
    let mut q = YaccParser::new("%pure-parse");
    assert!(q.parse_declarations().is_err());
    assert_eq!(q.grammar.symbols.len(), 2);
}

#[test]
fn unknown_directives_are_warned_about() {
    let mut p = YaccParser::new("%foo bar\n%baz\n%%\ns: ;");
    assert!(p.try_parse().is_ok());
    assert_eq!(
        p.warnings,
        vec![
            "warning: unknown directive %foo".to_string(),
            "warning: unknown directive %baz".to_string()
        ]
    );
    assert!(!p.grammar.symbols.contains(&"bar".to_string()));
}

#[test]
fn prologue_and_epilogue() {
    let g = read("%{ one %}\n%{two%}%%\ns: ;\n%%\n the end");
    assert_eq!(g.prologue, " one \ntwo\n");
    assert_eq!(g.epilogue, "\n the end");
}

#[test]
fn alternatives_and_actions() {
    let g = read("%%\ns: 'a' { first(); }\n | 'b' %prec HIGH { second(); }\n | ;\nt: s { last(); }");
    assert_eq!(g.rules.len(), 5);
    assert_eq!(g.rules[1].action, " first(); ");
    assert_eq!(g.rules[1].action_line, 2);
    assert_eq!(g.rules[2].prec_sym, Some(symbol(&g, "HIGH")));
    assert_eq!(g.rules[2].action, " second(); ");
    assert_eq!(g.rules[2].action_line, 3);
    assert!(g.rules[3].rhs.is_empty());
    assert_eq!(g.rules[4].action, " last(); ");
    for (i, r) in g.rules.iter().enumerate() {
        assert_eq!(r.rule_number, i);
    }
}

#[test]
fn actions_inside_alternatives() {
    let g = read("%%\ns: 'a' { mid(); } 'b' { end(); } ;");
    let mid = symbol(&g, "@0");
    assert!(g.is_nonterminal(mid));
    assert_eq!(g.rules[1].lhs, mid);
    assert!(g.rules[1].rhs.is_empty());
    assert_eq!(g.rules[1].action, " mid(); ");
    assert_eq!(g.rules[2].rhs, vec![symbol(&g, "'a'"), mid, symbol(&g, "'b'")]);
    assert_eq!(g.rules[2].action, " end(); ");
}

#[test]
fn a_rule_may_end_without_a_semicolon() {
    let g = read("%%\ns: 'a' { x(); }\nt: 'b' ;\n");
    assert_eq!(g.rules.len(), 3);
    assert_eq!(g.rules[2].lhs, symbol(&g, "t"));
}

#[test]
fn the_grammar_is_completed() {
    let g = read("%%\ns: t U ;\nt: ;");
    let accept = symbol(&g, "$accept");
    assert_eq!(g.augmented_start, accept);
    assert_eq!(g.rules[0].lhs, accept);
    assert_eq!(g.rules[0].rhs, vec![symbol(&g, "s"), 0]);
    assert!(g.is_nonterminal(accept) && !g.is_terminal(accept));
    assert!(g.is_terminal(symbol(&g, "U")));
    for r in &g.rules[1..] {
        assert_ne!(r.lhs, accept);
        for &x in &r.rhs {
            assert!(x != accept && x != 0);
            assert!(g.is_terminal(x) || g.is_nonterminal(x));
        }
    }
}

#[test]
fn reading_keeps_the_numbers_of_symbols() {
    let mut p = YaccParser::new("%token A B\n%left '+'\n%%\ns: A C '+' ;\n");
    assert!(p.parse_declarations().is_ok());
    let before = p.grammar.symbols.clone();
    assert!(p.expect_separator().is_ok());
    assert!(p.parse_rules().is_ok());
    assert_eq!(p.grammar.symbols[..before.len()], before[..]);
    p.parse_epilogue();
    assert!(p.finalize().is_ok());
    assert_eq!(p.grammar.symbols[..before.len()], before[..]);
}

#[test]
fn parts_of_a_file_one_by_one() {
    let mut p = YaccParser::new("<t> A 'b' ;");
    assert!(p.parse_token_decl(Assoc::Unset, 0).is_ok());
    assert_eq!(p.peek(), Some(';'));
    let mut q = YaccParser::new("<t> a 'b' ;");
    assert!(q.parse_type_decl().is_ok());
    assert_eq!(q.grammar.type_tags.len(), 2);
    let mut r = YaccParser::new("left '+' ;");
    assert!(r.parse_directive().is_ok());
    assert_eq!(r.grammar.next_prec, 2);
    let mut s = YaccParser::new("x : A | B ; rest");
    assert!(s.parse_rule().is_ok());
    assert_eq!(s.grammar.rules.len(), 2);
    let lhs = s.grammar.rules[0].lhs;
    let mut t = s;
    assert!(t.parse_alternative(lhs).is_ok());
    assert_eq!(t.grammar.rules[2].rhs.len(), 1);
}
