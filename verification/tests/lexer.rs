//! The words of a grammar file.

use bison::lexer::YaccParser;

#[test]
fn positions_and_lines() {
    let mut p = YaccParser::new("a\nb");
    assert_eq!((p.peek(), p.pos, p.line), (Some('a'), 0, 1));
    assert_eq!(p.advance(), Some('a'));
    assert_eq!(p.advance(), Some('\n'));
    assert_eq!((p.pos, p.line), (2, 2));
    assert_eq!(p.advance(), Some('b'));
    assert_eq!(p.advance(), None);
    assert_eq!((p.peek(), p.pos, p.line), (None, 3, 2));
}

#[test]
fn white_space_and_comments() {
    let mut p = YaccParser::new(" \t\r\n/* a *\n/ b **/ // c\n\x0C x");
    p.skip_whitespace();
    assert_eq!((p.peek(), p.line), (Some('x'), 4));
    let before = p.pos;
    p.skip_whitespace();
    assert_eq!(p.pos, before);
}

#[test]
fn white_space_and_comments_on_a_line() {
    let mut p = YaccParser::new(" \t/* a\n *//**/\r x\n");
    p.skip_blanks();
    assert_eq!((p.peek(), p.line), (Some('x'), 2));
    let mut q = YaccParser::new(" /* a */ \n x");
    q.skip_blanks();
    assert_eq!((q.peek(), q.line), (Some('\n'), 1));
    let mut r = YaccParser::new(" // a");
    r.skip_blanks();
    assert_eq!((r.peek(), r.pos), (Some('/'), 1));
}

#[test]
fn a_slash_alone_is_no_comment() {
    let mut p = YaccParser::new(" / *");
    p.skip_whitespace();
    assert_eq!(p.pos, 1);
}

#[test]
fn comments_without_an_end() {
    let mut p = YaccParser::new("/*/ x");
    p.skip_c_comment();
    assert_eq!(p.pos, 5);
    let mut q = YaccParser::new("// x");
    q.skip_line_comment();
    assert_eq!(q.pos, 4);
}

#[test]
fn identifiers() {
    let mut p = YaccParser::new("ab_9.c-d");
    assert_eq!(p.read_identifier(), "ab_9.c");
    assert_eq!(p.read_identifier(), "");
    assert_eq!(p.pos, 6);
}

#[test]
fn numbers() {
    for (text, value, end) in [
        ("258;", 258, 3),
        ("0", 0, 1),
        ("0129", 129, 4),
        ("0x1Fg", 31, 4),
        ("0XfF", 255, 4),
        ("0x", 0, 2),
        ("", 0, 0),
        ("x", 0, 0),
        ("2147483647", i32::MAX, 10),
        ("2147483648", 0, 10),
        ("0x7fffffff", i32::MAX, 10),
        ("0x80000000", 0, 10),
    ] {
        let mut p = YaccParser::new(text);
        assert_eq!((p.read_number(), p.pos), (value, end), "{}", text);
    }
}

#[test]
fn rules_ahead() {
    assert!(YaccParser::new("stmt:").is_new_rule_ahead());
    assert!(YaccParser::new("stmt \t\r\n: x").is_new_rule_ahead());
    assert!(!YaccParser::new("stmt expr :").is_new_rule_ahead());
    assert!(!YaccParser::new("stmt /* c */ :").is_new_rule_ahead());
    assert!(!YaccParser::new("stmt").is_new_rule_ahead());
}

#[test]
fn quoted_characters_and_strings() {
    let mut p = YaccParser::new("'\\'' x");
    assert_eq!(p.read_quoted_char(), "'\\''");
    assert_eq!(p.pos, 4);
    let mut q = YaccParser::new("\"a\\\"b\" c");
    assert_eq!(q.read_quoted_string(), "\"a\\\"b\"");
    let mut r = YaccParser::new("'abc");
    assert_eq!(r.read_quoted_char(), "'abc");
    assert_eq!(r.pos, 4);
}

#[test]
fn tags() {
    let mut p = YaccParser::new(" <num> x");
    assert_eq!(p.read_tag(), Some("num".to_string()));
    assert_eq!(p.pos, 6);
    assert_eq!(p.read_tag(), None);
    assert_eq!(p.pos, 7);
    let mut q = YaccParser::new("<num");
    assert_eq!(q.read_tag(), None);
    assert_eq!(q.pos, 4);
}

#[test]
fn blocks_of_code() {
    let text = " a { b } '}' \"}\\\"\" /* } */ // }\n c } rest";
    let mut p = YaccParser::new(text);
    assert_eq!(p.read_braced_code(), " a { b } '}' \"}\\\"\" /* } */ // }\n c ");
    assert_eq!(p.peek(), Some(' '));
    let mut q = YaccParser::new("a { b }");
    assert_eq!(q.read_braced_code(), "a { b }");
    assert_eq!(q.pos, 7);
}

#[test]
fn prologues() {
    let mut p = YaccParser::new(" int x; %} y");
    assert_eq!(p.read_prologue_block(), " int x; ");
    assert_eq!(p.peek(), Some(' '));
    let mut q = YaccParser::new("no end %");
    assert_eq!(q.read_prologue_block(), "no end %");
    assert_eq!(q.pos, 8);
}
