//! What a grammar file means.
//!
//! The functions here say what grammar a text denotes. Each takes the text and what has
//! been read of it so far, and gives what has been read when its part of the file is
//! behind.

use crate::grammar::{
    char_literal, intern, with_nonterminal, with_rule, with_tag, with_token, Assoc, GrammarView,
    RuleView, TokenView, EOF_TOKEN,
};
use crate::lexer::{
    at, at1, braced_code, braced_end, find, find2, ident_end, lemma_braced_end, lemma_find,
    lemma_find2, lemma_ident_end, lemma_literal_end, lemma_number_end, lemma_skip,
    lemma_skip_on_line, lemma_tag_end, lemma_word_end, line_of, literal_end, number_at, number_end,
    past, rule_ahead, skip, skip_on_line, tag_at, tag_end, word_end,
};
use crate::text::{dec, is_digit, is_ident_start};
use vstd::prelude::*;

verus! {

/// What has been read: a position in the text, the grammar so far, and the warnings.
#[verifier::ext_equal]
pub struct Progress {
    pub pos: int,
    pub g: GrammarView,
    pub warnings: Seq<Seq<char>>,
}

/// How a part of the file is read.
#[verifier::ext_equal]
pub enum Outcome {
    /// It was read.
    Done(Progress),
    /// It was not; the message says why.
    Failed(Progress, Seq<char>),
    /// A number passes the limit of 32 bits with a sign, or the end of the text cuts off a
    /// character literal so that no inside can be taken from it. The warnings up to there
    /// come with it.
    Limit(Seq<Seq<char>>),
}

/// What has been read, at another position.
pub open spec fn moved_to(st: Progress, p: int) -> Progress {
    Progress { pos: p, ..st }
}

/// What has been read, with another grammar and at another position.
pub open spec fn now(st: Progress, p: int, g: GrammarView) -> Progress {
    Progress { pos: p, g, ..st }
}

/// A message about the line that `p` is in.
pub open spec fn at_line(s: Seq<char>, p: int, what: Seq<char>) -> Seq<char> {
    "line "@ + dec(line_of(s, p)) + ": "@ + what
}

/// Whether the inside of a character literal can be taken from it: what stands between
/// its first and its last character, where the last one takes a single byte.
pub open spec fn has_inside(lit: Seq<char>) -> bool {
    lit.len() >= 2 && (lit.last() as u32) < 128
}

/// The code of the character that the literal denotes, if it denotes one.
pub open spec fn literal_code(lit: Seq<char>) -> Option<i32> {
    match char_literal(lit.subrange(1, lit.len() - 1)) {
        Some(c) => Some(c as u32 as i32),
        None => None,
    }
}

/// The grammar in which the literal `lit`, the symbol `sym`, is a token.
pub open spec fn with_literal(
    g: GrammarView,
    sym: usize,
    lit: Seq<char>,
    tag: Option<Seq<char>>,
    assoc: Assoc,
    prec: i32,
) -> GrammarView {
    with_token(
        g,
        sym,
        TokenView { name: lit, value: literal_code(lit), tag, prec, assoc, is_literal: true },
    )
}

/// The token number that is given out next once `v` has been given.
pub open spec fn next_after(next: i32, v: i32) -> int {
    if v >= next {
        v + 1
    } else {
        next as int
    }
}

/// Whether a number of the file stands at `p`, where a token may have one.
pub open spec fn at_number(s: Seq<char>, p: int) -> bool {
    0 <= p < s.len() && (s[p] == '{' || is_digit(s[p]))
}

/// The number of a token whose name ends at `p`: the one that the file gives, else the
/// next one to be given out.
pub open spec fn token_number(s: Seq<char>, p: int, g: GrammarView) -> i32 {
    let q = skip(s, p);
    if at_number(s, q) {
        number_at(s, q)
    } else {
        g.next_token_value
    }
}

/// Where the number of a token ends whose name ends at `p`.
pub open spec fn token_number_end(s: Seq<char>, p: int) -> int {
    let q = skip(s, p);
    if at_number(s, q) {
        number_end(s, q)
    } else {
        q
    }
}

/// The grammar in which the symbol `sym` is a named token with the number `v`.
pub open spec fn with_named(
    g: GrammarView,
    sym: usize,
    name: Seq<char>,
    v: i32,
    tag: Option<Seq<char>>,
    assoc: Assoc,
    prec: i32,
) -> GrammarView {
    let h = GrammarView { next_token_value: next_after(g.next_token_value, v) as i32, ..g };
    with_token(
        h,
        sym,
        TokenView { name, value: Some(v), tag, prec, assoc, is_literal: false },
    )
}

/// Tokens in a declaration, with the tag, associativity and precedence of it.
pub open spec fn token_list(
    s: Seq<char>,
    st: Progress,
    tag: Option<Seq<char>>,
    assoc: Assoc,
    prec: i32,
) -> Outcome
    decreases s.len() - st.pos,
{
    let p = skip(s, st.pos);
    if st.pos < 0 || st.pos > s.len() || p >= s.len() {
        Outcome::Done(moved_to(st, p))
    } else if is_ident_start(s[p]) {
        proof {
            lemma_skip(s, st.pos);
            lemma_ident_end(s, p);
            lemma_skip(s, ident_end(s, p));
            lemma_number_end(s, skip(s, ident_end(s, p)));
        }
        let e = ident_end(s, p);
        let name = s.subrange(p, e);
        let (g, id) = intern(st.g, name);
        let v = token_number(s, e, g);
        if next_after(g.next_token_value, v) > i32::MAX {
            Outcome::Limit(st.warnings)
        } else {
            token_list(
                s,
                now(st, token_number_end(s, e), with_named(g, id, name, v, tag, assoc, prec)),
                tag,
                assoc,
                prec,
            )
        }
    } else if s[p] == '\'' {
        proof {
            lemma_skip(s, st.pos);
            lemma_literal_end(s, p, '\'');
        }
        let e = literal_end(s, p, '\'');
        let lit = s.subrange(p, e);
        let (g, id) = intern(st.g, lit);
        if !has_inside(lit) {
            Outcome::Limit(st.warnings)
        } else {
            token_list(
                s,
                now(st, e, with_literal(g, id, lit, tag, assoc, prec)),
                tag,
                assoc,
                prec,
            )
        }
    } else {
        Outcome::Done(moved_to(st, p))
    }
}

/// A declaration of tokens.
pub open spec fn token_decl(s: Seq<char>, st: Progress, assoc: Assoc, prec: i32) -> Outcome {
    token_list(s, moved_to(st, tag_end(s, st.pos)), tag_at(s, st.pos), assoc, prec)
}

/// A declaration of tokens that gives them the next precedence.
pub open spec fn prec_decl(s: Seq<char>, st: Progress, assoc: Assoc) -> Outcome {
    if st.g.next_prec == i32::MAX {
        Outcome::Limit(st.warnings)
    } else {
        token_decl(
            s,
            now(st, st.pos, GrammarView { next_prec: (st.g.next_prec + 1) as i32, ..st.g }),
            assoc,
            st.g.next_prec,
        )
    }
}

/// Symbols in a declaration of types.
pub open spec fn type_list(s: Seq<char>, st: Progress, tag: Seq<char>) -> Progress
    decreases s.len() - st.pos,
{
    let p = skip(s, st.pos);
    if st.pos < 0 || st.pos > s.len() || p >= s.len() {
        moved_to(st, p)
    } else if is_ident_start(s[p]) || s[p] == '\'' {
        proof {
            lemma_skip(s, st.pos);
            lemma_ident_end(s, p);
            lemma_literal_end(s, p, '\'');
        }
        let e = if s[p] == '\'' {
            literal_end(s, p, '\'')
        } else {
            ident_end(s, p)
        };
        let (g, id) = intern(st.g, s.subrange(p, e));
        type_list(s, now(st, e, with_tag(g, id, tag)), tag)
    } else {
        moved_to(st, p)
    }
}

/// A declaration of types.
pub open spec fn type_decl(s: Seq<char>, st: Progress) -> Outcome {
    let p = tag_end(s, st.pos);
    match tag_at(s, st.pos) {
        Some(tag) => Outcome::Done(type_list(s, moved_to(st, p), tag)),
        None => Outcome::Failed(moved_to(st, p), at_line(s, p, "expected <tag> after %type"@)),
    }
}

/// Where a list of symbols ends that nothing is made of.
pub open spec fn ignored_list(s: Seq<char>, p: int) -> int
    decreases s.len() - p,
{
    let q = skip(s, p);
    if p < 0 || p > s.len() || q >= s.len() {
        q
    } else {
        proof {
            lemma_skip(s, p);
            lemma_skip(s, q);
            lemma_tag_end(s, q);
            lemma_literal_end(s, q, '\'');
            lemma_ident_end(s, q);
        }
        if s[q] == '<' {
            proof {
                assert(skip(s, q) == q);
            }
            ignored_list(s, tag_end(s, q))
        } else if s[q] == '\'' {
            ignored_list(s, literal_end(s, q, '\''))
        } else if is_ident_start(s[q]) {
            ignored_list(s, ident_end(s, q))
        } else {
            q
        }
    }
}

/// Where a text in double quotes ends, if one stands next from `p` on.
pub open spec fn optional_string_end(s: Seq<char>, p: int) -> int {
    let q = skip(s, p);
    if at1(s, q, '"') {
        literal_end(s, q, '"')
    } else {
        q
    }
}

/// Where a block of code ends, if one stands next from `p` on.
pub open spec fn optional_code_end(s: Seq<char>, p: int) -> int {
    let q = skip(s, p);
    if at1(s, q, '{') {
        braced_end(s, q + 1)
    } else {
        q
    }
}

/// Whether the suffix that the word `pure` may have stands at `p`.
pub open spec fn at_suffix(s: Seq<char>, p: int) -> bool {
    0 <= p <= s.len() - 7 && s.subrange(p, p + 7) == "-parser"@
}

/// The position behind the suffix that the word `pure` may have, if it stands at `p`;
/// else `p`.
pub open spec fn past_suffix(s: Seq<char>, p: int) -> int {
    if at_suffix(s, p) {
        p + 7
    } else {
        p
    }
}

/// The declaration of the start symbol.
pub open spec fn start_decl(s: Seq<char>, st: Progress) -> Progress {
    let q = skip(s, st.pos);
    let e = ident_end(s, q);
    let (g, id) = intern(st.g, s.subrange(q, e));
    now(st, e, GrammarView { start: Some(id), ..g })
}

/// The declaration of the type of semantic values.
pub open spec fn union_decl(s: Seq<char>, st: Progress) -> Progress {
    let q = skip(s, st.pos);
    if at1(s, q, '{') {
        now(
            st,
            braced_end(s, q + 1),
            GrammarView { union_code: braced_code(s, q + 1), ..st.g },
        )
    } else {
        moved_to(st, q)
    }
}

/// A declaration that a word after a percent sign begins. The position is behind the
/// percent sign.
pub open spec fn directive(s: Seq<char>, st: Progress) -> Outcome {
    let e = ident_end(s, st.pos);
    let word = s.subrange(st.pos, e);
    let st = moved_to(st, e);
    if word == "token"@ {
        token_decl(s, st, Assoc::Unset, 0)
    } else if word == "left"@ {
        prec_decl(s, st, Assoc::Left)
    } else if word == "right"@ {
        prec_decl(s, st, Assoc::Right)
    } else if word == "nonassoc"@ {
        prec_decl(s, st, Assoc::NonAssoc)
    } else if word == "union"@ {
        Outcome::Done(union_decl(s, st))
    } else if word == "type"@ {
        type_decl(s, st)
    } else if word == "start"@ {
        Outcome::Done(start_decl(s, st))
    } else if word == "expect"@ {
        let q = skip(s, e);
        Outcome::Done(
            now(
                st,
                number_end(s, q),
                GrammarView { expect_conflicts: Some(number_at(s, q)), ..st.g },
            ),
        )
    } else if word == "defines"@ {
        Outcome::Done(
            now(st, optional_string_end(s, e), GrammarView { defines: true, ..st.g }),
        )
    } else if word == "define"@ {
        Outcome::Done(moved_to(st, find(s, skip_on_line(s, word_end(s, skip(s, e))), '\n')))
    } else if word == "output"@ {
        Outcome::Done(moved_to(st, optional_string_end(s, e)))
    } else if word == "pure"@ {
        Outcome::Done(moved_to(st, skip(s, past_suffix(s, e))))
    } else if word == "pure_parser"@ || word == "error"@ || word == "verbose"@ {
        Outcome::Done(moved_to(st, skip(s, e)))
    } else if word == "destructor"@ || word == "printer"@ {
        Outcome::Done(moved_to(st, ignored_list(s, optional_code_end(s, e))))
    } else if word == ""@ {
        Outcome::Done(st)
    } else {
        Outcome::Done(
            Progress {
                pos: find(s, e, '\n'),
                warnings: st.warnings.push("warning: unknown directive %"@ + word),
                ..st
            },
        )
    }
}

/// The first part of the file: declarations, up to two percent signs.
pub open spec fn declarations(s: Seq<char>, st: Progress) -> Outcome
    decreases s.len() - st.pos,
{
    let p = skip(s, st.pos);
    if st.pos < 0 || st.pos > s.len() || p >= s.len() {
        Outcome::Failed(moved_to(st, p), "unexpected end of input in declarations"@)
    } else if at(s, p, '%', '%') {
        Outcome::Done(moved_to(st, p))
    } else if at(s, p, '%', '{') {
        proof {
            lemma_skip(s, st.pos);
            lemma_find2(s, p + 2, '%', '}');
        }
        let e = find2(s, p + 2, '%', '}');
        declarations(
            s,
            now(
                st,
                past(s, e, 2),
                GrammarView {
                    prologue: (st.g.prologue + s.subrange(p + 2, e)).push('\n'),
                    ..st.g
                },
            ),
        )
    } else if s[p] == '%' {
        proof {
            lemma_skip(s, st.pos);
            lemma_directive(s, moved_to(st, p + 1));
        }
        match directive(s, moved_to(st, p + 1)) {
            Outcome::Done(st1) => declarations(s, st1),
            o => o,
        }
    } else {
        proof {
            lemma_skip(s, st.pos);
            lemma_find(s, p + 1, '\n');
        }
        declarations(s, moved_to(st, find(s, p, '\n')))
    }
}

/// The two percent signs between the first part of the file and the second.
pub open spec fn separator(s: Seq<char>, st: Progress) -> Outcome {
    let p = skip(s, st.pos);
    if at(s, p, '%', '%') {
        Outcome::Done(moved_to(st, p + 2))
    } else {
        Outcome::Failed(moved_to(st, p), at_line(s, p, "expected %%"@))
    }
}

/// Whether an alternative of a rule ends at `p`, behind an action.
pub open spec fn alternative_ends(s: Seq<char>, p: int) -> bool {
    ||| p >= s.len()
    ||| s[p] == ';' || s[p] == '|' || s[p] == '%'
    ||| is_ident_start(s[p]) && rule_ahead(s, p)
}

/// An alternative that is finished becomes a rule with the next number.
pub open spec fn finished(st: Progress, p: int, alt: RuleView) -> Outcome {
    let n = st.g.rules.len() as usize;
    Outcome::Done(now(st, p, with_rule(st.g, RuleView { rule_number: n, ..alt })))
}

/// The name of the symbol that stands for an action inside an alternative.
pub open spec fn mid_name(n: nat) -> Seq<char> {
    "@"@ + dec(n)
}

/// The grammar in which an action inside an alternative has a rule of its own, which
/// derives nothing from a symbol of its own; and that symbol.
pub open spec fn with_mid_rule(g: GrammarView, code: Seq<char>, line: usize) -> (
    GrammarView,
    usize,
) {
    let n = g.rules.len();
    let (h, id) = intern(g, mid_name(n));
    (
        with_rule(
            with_nonterminal(h, id),
            RuleView {
                lhs: id,
                rhs: Seq::empty(),
                action: code,
                action_line: line,
                prec_sym: None,
                rule_number: n as usize,
            },
        ),
        id,
    )
}

/// Whether the word `%prec` stands at `p`.
pub open spec fn at_prec(s: Seq<char>, p: int) -> bool {
    p + 5 <= s.len() && s.subrange(p, p + 5) == "%prec"@
}

/// Where the symbol ends that stands at `p`.
pub open spec fn symbol_end(s: Seq<char>, p: int) -> int {
    if at1(s, p, '\'') {
        literal_end(s, p, '\'')
    } else {
        ident_end(s, p)
    }
}

/// The rest of an alternative of which `alt` has been read.
pub open spec fn alternative_rest(s: Seq<char>, st: Progress, alt: RuleView) -> Outcome
    decreases s.len() - st.pos,
{
    let p = skip(s, st.pos);
    if st.pos < 0 || st.pos > s.len() || p >= s.len() || s[p] == ';' || s[p] == '|' {
        finished(st, p, alt)
    } else {
        proof {
            lemma_skip(s, st.pos);
            lemma_literal_end(s, p, '\'');
            lemma_ident_end(s, p);
        }
        if s[p] == '{' {
            proof {
                lemma_braced_end(s, p + 1);
                lemma_skip(s, braced_end(s, p + 1));
            }
            let code = braced_code(s, p + 1);
            let q = skip(s, braced_end(s, p + 1));
            if alternative_ends(s, q) {
                finished(st, q, RuleView { action: code, ..alt })
            } else {
                let (g, id) = with_mid_rule(st.g, code, alt.action_line);
                alternative_rest(
                    s,
                    now(st, q, g),
                    RuleView { rhs: alt.rhs.push(id), action: Seq::empty(), ..alt },
                )
            }
        } else if s[p] == '%' {
            if at_prec(s, p) {
                proof {
                    lemma_ident_end(s, p + 1);
                    lemma_skip(s, ident_end(s, p + 1));
                    lemma_symbol_end(s, skip(s, ident_end(s, p + 1)));
                }
                let q = skip(s, ident_end(s, p + 1));
                let e = symbol_end(s, q);
                let (g, id) = intern(st.g, s.subrange(q, e));
                alternative_rest(s, now(st, e, g), RuleView { prec_sym: Some(id), ..alt })
            } else {
                finished(st, p, alt)
            }
        } else if s[p] == '\'' {
            let e = literal_end(s, p, '\'');
            let lit = s.subrange(p, e);
            let (g, id) = intern(st.g, lit);
            let more = RuleView { rhs: alt.rhs.push(id), ..alt };
            if g.terminals.contains(id) || g.nonterminals.contains(id) {
                alternative_rest(s, now(st, e, g), more)
            } else if !has_inside(lit) {
                Outcome::Limit(st.warnings)
            } else {
                alternative_rest(
                    s,
                    now(st, e, with_literal(g, id, lit, None, Assoc::Unset, 0)),
                    more,
                )
            }
        } else if is_ident_start(s[p]) {
            let e = ident_end(s, p);
            let (g, id) = intern(st.g, s.subrange(p, e));
            alternative_rest(s, now(st, e, g), RuleView { rhs: alt.rhs.push(id), ..alt })
        } else {
            Outcome::Failed(
                moved_to(st, p),
                at_line(s, p, "unexpected character '"@ + seq![s[p]] + "' in rule"@),
            )
        }
    }
}

/// An alternative of the nonterminal `lhs`.
pub open spec fn alternative(s: Seq<char>, st: Progress, lhs: usize) -> Outcome {
    alternative_rest(
        s,
        st,
        RuleView {
            lhs,
            rhs: Seq::empty(),
            action: Seq::empty(),
            action_line: line_of(s, st.pos) as usize,
            prec_sym: None,
            rule_number: 0,
        },
    )
}

/// The alternatives of the nonterminal `lhs`.
pub open spec fn alternatives(s: Seq<char>, st: Progress, lhs: usize) -> Outcome
    decreases s.len() - st.pos,
{
    if st.pos < 0 || st.pos > s.len() {
        Outcome::Done(st)
    } else {
        match alternative(s, st, lhs) {
            Outcome::Done(st1) => {
                proof {
                    lemma_alternative(s, st, lhs);
                    lemma_skip(s, st1.pos);
                }
                let p = skip(s, st1.pos);
                if at1(s, p, '|') {
                    alternatives(s, moved_to(st1, p + 1), lhs)
                } else if at1(s, p, ';') {
                    Outcome::Done(moved_to(st1, p + 1))
                } else {
                    Outcome::Done(moved_to(st1, p))
                }
            },
            o => o,
        }
    }
}

/// The grammar in which `lhs` is a nonterminal, and the start symbol if there is none.
pub open spec fn with_lhs(g: GrammarView, lhs: usize) -> GrammarView {
    GrammarView {
        start: if g.start is None {
            Some(lhs)
        } else {
            g.start
        },
        ..with_nonterminal(g, lhs)
    }
}

/// A nonterminal with its alternatives.
pub open spec fn rule(s: Seq<char>, st: Progress) -> Outcome {
    let p = skip(s, st.pos);
    let e = ident_end(s, p);
    let name = s.subrange(p, e);
    if e == p {
        Outcome::Failed(moved_to(st, p), at_line(s, p, "expected rule name"@))
    } else {
        let (g, lhs) = intern(st.g, name);
        let h = with_lhs(g, lhs);
        let q = skip(s, e);
        if !at1(s, q, ':') {
            Outcome::Failed(
                now(st, q, h),
                at_line(s, q, "expected ':' after '"@ + name + "'"@),
            )
        } else {
            alternatives(s, now(st, q + 1, h), lhs)
        }
    }
}

/// The second part of the file: rules, up to two percent signs or the end.
pub open spec fn rules(s: Seq<char>, st: Progress) -> Outcome
    decreases s.len() - st.pos,
{
    let p = skip(s, st.pos);
    if st.pos < 0 || st.pos > s.len() || p >= s.len() {
        Outcome::Done(moved_to(st, p))
    } else if at(s, p, '%', '%') {
        Outcome::Done(moved_to(st, p + 2))
    } else {
        proof {
            lemma_skip(s, st.pos);
            lemma_rule(s, moved_to(st, p));
        }
        match rule(s, moved_to(st, p)) {
            Outcome::Done(st1) => rules(s, st1),
            o => o,
        }
    }
}

/// The third part of the file: the rest of the text, as it stands.
pub open spec fn epilogue(s: Seq<char>, st: Progress) -> Progress {
    now(
        st,
        st.pos,
        GrammarView { epilogue: s.subrange(st.pos, s.len() as int), ..st.g },
    )
}

/// Whether the symbol is neither a terminal nor a nonterminal.
pub open spec fn unclassified(g: GrammarView, sym: usize) -> bool {
    !g.terminals.contains(sym) && !g.nonterminals.contains(sym)
}

/// The grammar in which each of `syms` that was neither a terminal nor a nonterminal is
/// a token, with the next number. There is none where the numbers run out.
pub open spec fn classified(g: GrammarView, syms: Seq<usize>) -> Option<GrammarView>
    decreases syms.len(),
{
    if syms.len() == 0 {
        Some(g)
    } else {
        match classified(g, syms.drop_last()) {
            None => None,
            Some(h) => {
                let sym = syms.last();
                let v = h.next_token_value;
                if !unclassified(h, sym) {
                    Some(h)
                } else if v == i32::MAX {
                    None
                } else {
                    Some(
                        with_named(h, sym, h.symbols[sym as int], v, None, Assoc::Unset, 0),
                    )
                }
            },
        }
    }
}

/// The symbols on the right-hand sides of the rules, in order.
pub open spec fn used_symbols(rs: Seq<RuleView>) -> Seq<usize>
    decreases rs.len(),
{
    if rs.len() == 0 {
        Seq::empty()
    } else {
        used_symbols(rs.drop_last()) + rs.last().rhs
    }
}

/// The rules with their numbers one higher, behind the rule that derives the start
/// symbol and the end of the input from `accept`.
pub open spec fn augmented_rules(rs: Seq<RuleView>, accept: usize, start: usize) -> Seq<RuleView> {
    seq![
        RuleView {
            lhs: accept,
            rhs: seq![start, EOF_TOKEN],
            action: Seq::empty(),
            action_line: 0,
            prec_sym: None,
            rule_number: 0,
        },
    ] + Seq::new(
        rs.len(),
        |i: int| RuleView { rule_number: (rs[i].rule_number + 1) as usize, ..rs[i] },
    )
}

/// The grammar with a rule for the whole input.
pub open spec fn augmented(g: GrammarView, start: usize) -> GrammarView {
    let (h, accept) = intern(g, "$accept"@);
    GrammarView {
        rules: augmented_rules(h.rules, accept, start),
        augmented_start: accept,
        ..with_nonterminal(h, accept)
    }
}

/// What makes the grammar complete once the file is read.
pub open spec fn completed(st: Progress) -> Outcome {
    match classified(st.g, used_symbols(st.g.rules)) {
        None => Outcome::Limit(st.warnings),
        Some(g) => match g.start {
            None => Outcome::Failed(now(st, st.pos, g), "no start symbol defined"@),
            Some(start) => Outcome::Done(now(st, st.pos, augmented(g, start))),
        },
    }
}

/// The second and third part of the file, and what makes the grammar complete.
pub open spec fn body(s: Seq<char>, st: Progress) -> Outcome {
    match rules(s, st) {
        Outcome::Done(st1) => completed(epilogue(s, st1)),
        o => o,
    }
}

/// The whole file.
pub open spec fn grammar_file(s: Seq<char>, st: Progress) -> Outcome {
    match declarations(s, st) {
        Outcome::Done(st1) => match separator(s, st1) {
            Outcome::Done(st2) => body(s, st2),
            o => o,
        },
        o => o,
    }
}

// ---------------------------------------------------------------------------
// Reading moves forward, and stays inside the text
// ---------------------------------------------------------------------------

/// Whether what was read ends at `p` or later, inside the text.
pub open spec fn forward(s: Seq<char>, p: int, o: Outcome) -> bool {
    o matches Outcome::Done(st) ==> p <= st.pos <= s.len()
}

/// `symbol_end` moves forward, and stays inside the text.
pub proof fn lemma_symbol_end(s: Seq<char>, p: int)
    requires
        0 <= p <= s.len(),
    ensures
        p <= symbol_end(s, p) <= s.len(),
{
    lemma_literal_end(s, p, '\'');
    lemma_ident_end(s, p);
}

/// `token_number_end` moves forward, and stays inside the text.
pub proof fn lemma_token_number_end(s: Seq<char>, p: int)
    requires
        0 <= p <= s.len(),
    ensures
        p <= skip(s, p) <= token_number_end(s, p) <= s.len(),
{
    lemma_skip(s, p);
    lemma_number_end(s, skip(s, p));
}

/// `token_list` moves forward, and stays inside the text.
pub proof fn lemma_token_list(
    s: Seq<char>,
    st: Progress,
    tag: Option<Seq<char>>,
    assoc: Assoc,
    prec: i32,
)
    requires
        0 <= st.pos <= s.len(),
    ensures
        forward(s, st.pos, token_list(s, st, tag, assoc, prec)),
    decreases s.len() - st.pos,
{
    lemma_skip(s, st.pos);
    let p = skip(s, st.pos);
    if p < s.len() {
        if is_ident_start(s[p]) {
            lemma_ident_end(s, p);
            let e = ident_end(s, p);
            lemma_token_number_end(s, e);
            let name = s.subrange(p, e);
            let (g, id) = intern(st.g, name);
            let v = token_number(s, e, g);
            lemma_token_list(
                s,
                now(st, token_number_end(s, e), with_named(g, id, name, v, tag, assoc, prec)),
                tag,
                assoc,
                prec,
            );
        } else if s[p] == '\'' {
            lemma_literal_end(s, p, '\'');
            let e = literal_end(s, p, '\'');
            let lit = s.subrange(p, e);
            let (g, id) = intern(st.g, lit);
            lemma_token_list(
                s,
                now(st, e, with_literal(g, id, lit, tag, assoc, prec)),
                tag,
                assoc,
                prec,
            );
        }
    }
}

/// `type_list` moves forward, and stays inside the text.
pub proof fn lemma_type_list(s: Seq<char>, st: Progress, tag: Seq<char>)
    requires
        0 <= st.pos <= s.len(),
    ensures
        st.pos <= type_list(s, st, tag).pos <= s.len(),
    decreases s.len() - st.pos,
{
    lemma_skip(s, st.pos);
    let p = skip(s, st.pos);
    if p < s.len() && (is_ident_start(s[p]) || s[p] == '\'') {
        lemma_ident_end(s, p);
        lemma_literal_end(s, p, '\'');
        let e = if s[p] == '\'' {
            literal_end(s, p, '\'')
        } else {
            ident_end(s, p)
        };
        let (g, id) = intern(st.g, s.subrange(p, e));
        lemma_type_list(s, now(st, e, with_tag(g, id, tag)), tag);
    }
}

/// `ignored_list` moves forward, and stays inside the text.
pub proof fn lemma_ignored_list(s: Seq<char>, p: int)
    requires
        0 <= p <= s.len(),
    ensures
        p <= ignored_list(s, p) <= s.len(),
    decreases s.len() - p,
{
    lemma_skip(s, p);
    let q = skip(s, p);
    if q < s.len() {
        lemma_tag_end(s, q);
        lemma_literal_end(s, q, '\'');
        lemma_ident_end(s, q);
        if s[q] == '<' {
            assert(skip(s, q) == q);
            lemma_ignored_list(s, tag_end(s, q));
        } else if s[q] == '\'' {
            lemma_ignored_list(s, literal_end(s, q, '\''));
        } else if is_ident_start(s[q]) {
            lemma_ignored_list(s, ident_end(s, q));
        }
    }
}

/// `token_decl` moves forward, and stays inside the text.
pub proof fn lemma_token_decl(s: Seq<char>, st: Progress, assoc: Assoc, prec: i32)
    requires
        0 <= st.pos <= s.len(),
    ensures
        forward(s, st.pos, token_decl(s, st, assoc, prec)),
{
    lemma_tag_end(s, st.pos);
    lemma_token_list(
        s,
        moved_to(st, tag_end(s, st.pos)),
        tag_at(s, st.pos),
        assoc,
        prec,
    );
}

/// `prec_decl` moves forward, and stays inside the text.
pub proof fn lemma_prec_decl(s: Seq<char>, st: Progress, assoc: Assoc)
    requires
        0 <= st.pos <= s.len(),
    ensures
        forward(s, st.pos, prec_decl(s, st, assoc)),
{
    lemma_token_decl(
        s,
        now(st, st.pos, GrammarView { next_prec: (st.g.next_prec + 1) as i32, ..st.g }),
        assoc,
        st.g.next_prec,
    );
}

/// `type_decl` moves forward, and stays inside the text.
pub proof fn lemma_type_decl(s: Seq<char>, st: Progress)
    requires
        0 <= st.pos <= s.len(),
    ensures
        forward(s, st.pos, type_decl(s, st)),
{
    lemma_tag_end(s, st.pos);
    match tag_at(s, st.pos) {
        Some(tag) => {
            lemma_type_list(s, moved_to(st, tag_end(s, st.pos)), tag);
        },
        None => {},
    }
}

/// `directive` moves forward, and stays inside the text.
pub proof fn lemma_directive(s: Seq<char>, st: Progress)
    requires
        0 <= st.pos <= s.len(),
    ensures
        forward(s, st.pos, directive(s, st)),
{
    lemma_ident_end(s, st.pos);
    let e = ident_end(s, st.pos);
    let st1 = moved_to(st, e);
    lemma_token_decl(s, st1, Assoc::Unset, 0);
    lemma_prec_decl(s, st1, Assoc::Left);
    lemma_prec_decl(s, st1, Assoc::Right);
    lemma_prec_decl(s, st1, Assoc::NonAssoc);
    lemma_type_decl(s, st1);
    lemma_skip(s, e);
    let q = skip(s, e);
    lemma_number_end(s, q);
    lemma_ident_end(s, q);
    lemma_literal_end(s, q, '"');
    if q < s.len() {
        lemma_braced_end(s, q + 1);
    }
    lemma_word_end(s, q);
    lemma_skip_on_line(s, word_end(s, q));
    lemma_find(s, skip_on_line(s, word_end(s, q)), '\n');
    lemma_skip(s, past_suffix(s, e));
    lemma_find(s, e, '\n');
    lemma_ignored_list(s, optional_code_end(s, e));
}

/// `alternative_rest` moves forward, and stays inside the text.
pub proof fn lemma_alternative_rest(s: Seq<char>, st: Progress, alt: RuleView)
    requires
        0 <= st.pos <= s.len(),
    ensures
        forward(s, st.pos, alternative_rest(s, st, alt)),
    decreases s.len() - st.pos,
{
    lemma_skip(s, st.pos);
    let p = skip(s, st.pos);
    if p < s.len() && s[p] != ';' && s[p] != '|' {
        lemma_literal_end(s, p, '\'');
        lemma_ident_end(s, p);
        if s[p] == '{' {
            lemma_braced_end(s, p + 1);
            lemma_skip(s, braced_end(s, p + 1));
            let code = braced_code(s, p + 1);
            let q = skip(s, braced_end(s, p + 1));
            if !alternative_ends(s, q) {
                let (g, id) = with_mid_rule(st.g, code, alt.action_line);
                lemma_alternative_rest(
                    s,
                    now(st, q, g),
                    RuleView { rhs: alt.rhs.push(id), action: Seq::empty(), ..alt },
                );
            }
        } else if s[p] == '%' {
            if at_prec(s, p) {
                lemma_ident_end(s, p + 1);
                lemma_skip(s, ident_end(s, p + 1));
                let q = skip(s, ident_end(s, p + 1));
                lemma_symbol_end(s, q);
                let e = symbol_end(s, q);
                let (g, id) = intern(st.g, s.subrange(q, e));
                lemma_alternative_rest(
                    s,
                    now(st, e, g),
                    RuleView { prec_sym: Some(id), ..alt },
                );
            }
        } else if s[p] == '\'' {
            let e = literal_end(s, p, '\'');
            let lit = s.subrange(p, e);
            let (g, id) = intern(st.g, lit);
            let more = RuleView { rhs: alt.rhs.push(id), ..alt };
            if g.terminals.contains(id) || g.nonterminals.contains(id) {
                lemma_alternative_rest(s, now(st, e, g), more);
            } else if has_inside(lit) {
                lemma_alternative_rest(
                    s,
                    now(st, e, with_literal(g, id, lit, None, Assoc::Unset, 0)),
                    more,
                );
            }
        } else if is_ident_start(s[p]) {
            let e = ident_end(s, p);
            let (g, id) = intern(st.g, s.subrange(p, e));
            lemma_alternative_rest(
                s,
                now(st, e, g),
                RuleView { rhs: alt.rhs.push(id), ..alt },
            );
        }
    }
}

/// `alternative` moves forward, and stays inside the text.
pub proof fn lemma_alternative(s: Seq<char>, st: Progress, lhs: usize)
    requires
        0 <= st.pos <= s.len(),
    ensures
        forward(s, st.pos, alternative(s, st, lhs)),
{
    lemma_alternative_rest(
        s,
        st,
        RuleView {
            lhs,
            rhs: Seq::empty(),
            action: Seq::empty(),
            action_line: line_of(s, st.pos) as usize,
            prec_sym: None,
            rule_number: 0,
        },
    );
}

/// `alternatives` moves forward, and stays inside the text.
pub proof fn lemma_alternatives(s: Seq<char>, st: Progress, lhs: usize)
    requires
        0 <= st.pos <= s.len(),
    ensures
        forward(s, st.pos, alternatives(s, st, lhs)),
    decreases s.len() - st.pos,
{
    lemma_alternative(s, st, lhs);
    match alternative(s, st, lhs) {
        Outcome::Done(st1) => {
            lemma_skip(s, st1.pos);
            let p = skip(s, st1.pos);
            if at1(s, p, '|') {
                lemma_alternatives(s, moved_to(st1, p + 1), lhs);
            }
        },
        _ => {},
    }
}

/// `rule` moves forward, and stays inside the text.
pub proof fn lemma_rule(s: Seq<char>, st: Progress)
    requires
        0 <= st.pos <= s.len(),
    ensures
        rule(s, st) matches Outcome::Done(st1) ==> st.pos < st1.pos <= s.len(),
{
    lemma_skip(s, st.pos);
    let p = skip(s, st.pos);
    lemma_ident_end(s, p);
    let e = ident_end(s, p);
    if e != p {
        lemma_skip(s, e);
        let (g, lhs) = intern(st.g, s.subrange(p, e));
        let q = skip(s, e);
        if at1(s, q, ':') {
            lemma_alternatives(s, now(st, q + 1, with_lhs(g, lhs)), lhs);
        }
    }
}

} // verus!
