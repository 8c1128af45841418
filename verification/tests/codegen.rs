//! Pieces of the generated code.

use bison::action::transform;
use bison::codegen::CodeGenerator;
use bison::grammar::Grammar;
use bison::lexer::YaccParser;
use bison::tables::TableGenerator;

fn read(text: &str) -> Grammar {
    let mut parser = YaccParser::new(text);
    assert!(parser.try_parse().is_ok());
    parser.grammar
}

#[test]
fn values_in_actions() {
    assert_eq!(transform("$$ = $1;"), "yyval = yyvs[yyssp - yylen + 1];");
    assert_eq!(transform("$12"), "yyvs[yyssp - yylen + 12]");
    assert_eq!(transform("$-3"), "yyvs[yyssp - yylen + -3]");
    assert_eq!(transform("$0"), "yyvs[yyssp - yylen + 0]");
    assert_eq!(transform("$99999999999"), "yyvs[yyssp - yylen + 0]");
    assert_eq!(transform("$<num>$ $<num>2 $<num>-1"), "yyval yyvs[yyssp - yylen + 2] yyvs[yyssp - yylen + -1]");
    assert_eq!(transform("$<num>-"), "yyvs[yyssp - yylen + 0]");
}

#[test]
fn locations_in_actions() {
    assert_eq!(transform("@$ @1"), "yyloc yylsp[yyssp - yylen + 1]");
    assert_eq!(transform("@-1 @x @"), "@-1 @x @");
}

#[test]
fn other_text_in_actions() {
    assert_eq!(transform(""), "");
    assert_eq!(transform("a + b;"), "a + b;");
    assert_eq!(transform("$"), "$");
    assert_eq!(transform("$x $- $-x"), "$x $- $-x");
    assert_eq!(transform("é$$"), "éyyval");
    // A tag with nothing behind it is left out.
    assert_eq!(transform("a $<num>b"), "a b");
    assert_eq!(transform("a $<num"), "a ");
}

#[test]
fn names_of_sizes_are_in_upper_case() {
    let g = read("%token A B\n%%\ns: A s B | ;\n");
    let mut t = TableGenerator::new(&g);
    assert!(t.try_generate());
    let code = CodeGenerator::new(&g, &t, "calc_".to_string());
    assert_eq!(code.upper, "CALC_");
    assert_eq!(code.prefix, "calc_");
    let header = code.generate_header();
    assert!(header.starts_with("#ifndef CALC__TAB_H\n#define CALC__TAB_H\n\n"));
    assert!(header.ends_with("extern YYSTYPE calc_lval;\n\n#endif /* CALC__TAB_H */\n"));
    let odd = CodeGenerator::new(&g, &t, "straße".to_string());
    assert_eq!(odd.upper, "STRASSE");
}

#[test]
fn the_upper_case_can_be_given() {
    let g = read("%token A B\n%%\ns: A s B | ;\n");
    let mut t = TableGenerator::new(&g);
    assert!(t.try_generate());
    let code = CodeGenerator::with_upper(&g, &t, "p".to_string(), "Q".to_string());
    let mut out = String::new();
    code.emit_tables(&mut out);
    assert!(out.contains("#define QNTOKENS 3\n#define QNSTATES 6\n#define QNRULES 3\n#define QNNONTERMS 2\n\n"));
    assert!(out.contains("static const short pr2[] = {\n  2, 3, 0\n};\n\n"));
    assert!(out.contains("static const short pr1[] = {\n  0, 1, 1\n};\n\n"));
    assert!(out.contains("static const int ptoken_values[] = {\n  0, 258, 259\n};\n\n"));
    assert!(out.contains("  { -3, 2, -3 },\n"));
    assert!(out.contains("static const int pgoto[][2] = {\n  { -1, 2 },\n  { -1, 3 },\n  { -1, -1 },\n"));
}

fn emitted(text: &str, emit: fn(&CodeGenerator, &mut String)) -> String {
    let g = read(text);
    let t = TableGenerator::new(&g);
    let code = CodeGenerator::new(&g, &t, "yy".to_string());
    let mut out = "before\n".to_string();
    emit(&code, &mut out);
    out
}

#[test]
fn tokens_in_the_order_of_their_numbers() {
    let out = emitted("%token C 400 A B 300\n%token '+' D 258\n%%\ns: ;", |c, o| c.emit_token_defines(o));
    assert_eq!(
        out,
        "before\n/* Token definitions */\n#ifndef YYTOKENTYPE\n#define YYTOKENTYPE\nenum yytokentype {\n  \
         D = 258,\n  B = 300,\n  C = 400,\n  A = 401,\n};\n#endif\n\n#define D 258\n#define B 300\n\
         #define C 400\n#define A 401\n\n"
    );
}

#[test]
fn no_tokens() {
    let out = emitted("%%\ns: '+' error ;", |c, o| c.emit_token_defines(o));
    assert_eq!(out, "before\n/* Token definitions */\n");
}

#[test]
fn types_of_values() {
    assert_eq!(
        emitted("%%\ns: ;", |c, o| c.emit_yystype(o)),
        "before\n#ifndef YYSTYPE\ntypedef int YYSTYPE;\n#define YYSTYPE YYSTYPE\n#endif\n\n"
    );
    assert_eq!(
        emitted("%union { int a; }\n%%\ns: ;", |c, o| c.emit_yystype(o)),
        "before\n#ifndef YYSTYPE\ntypedef union YYSTYPE {\n int a; \n} YYSTYPE;\n#define YYSTYPE YYSTYPE\n#endif\n\n"
    );
}

#[test]
fn prologues_and_epilogues() {
    assert_eq!(emitted("%%\ns: ;", |c, o| c.emit_prologue(o)), "before\n");
    assert_eq!(
        emitted("%{ x %}\n%%\ns: ;", |c, o| c.emit_prologue(o)),
        "before\n/* Prologue */\n x \n\n"
    );
    assert_eq!(emitted("%%\ns: ;", |c, o| c.emit_epilogue(o)), "before\n");
    assert_eq!(
        emitted("%%\ns: ;\n%%\nend", |c, o| c.emit_epilogue(o)),
        "before\n\n/* Epilogue */\n\nend"
    );
}

#[test]
fn the_head_of_a_file() {
    assert_eq!(
        emitted("%%\ns: ;", |c, o| c.emit_header(o)),
        "before\n/* A Bison-like parser, generated by rust-bison.  */\n\n#include <stdio.h>\n#include <stdlib.h>\n#include <string.h>\n\n"
    );
}

#[test]
fn cases_of_rules() {
    let out = emitted("%%\ns: 'a' { $$ = $1; } | 'b' | ;", |c, o| c.emit_parser(o));
    assert!(out.contains(
        "    switch (yyn) {\n    case 1:\n#line 2 \"input.y\"\n      {  yyval = yyvs[yyssp - yylen + 1];  }\n      break;\n    \
         case 2:\n      yyval = yyvs[yyssp - yylen + 1];\n      break;\n    default: break;\n    }\n"
    ));
    let g = read("%%\ns: ;");
    let t = TableGenerator::new(&g);
    let code = CodeGenerator::new(&g, &t, "yy".to_string());
    assert_eq!(code.transform_action("$$", 0), "yyval");
}
