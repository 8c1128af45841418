//! Reading only adds to a grammar.

use crate::grammar::{intern, with_tag, Assoc, GrammarView, RuleView};
use crate::lexer::{
    braced_code, braced_end, find, find2, ident_end, lemma_braced_end, lemma_find, lemma_find2,
    lemma_ident_end, lemma_literal_end, lemma_number_end, lemma_skip, line_of, literal_end, past,
    skip,
};
use crate::syntax::{
    alternative, alternative_ends, alternative_rest, alternatives, declarations, directive,
    lemma_alternative, lemma_directive, lemma_rule, lemma_symbol_end, moved_to, now, rule, rules,
    symbol_end, token_list, token_number, token_number_end, type_list, with_literal, with_mid_rule,
    with_named, Outcome, Progress,
};
use vstd::prelude::*;

verus! {

/// Whether all that is in `g` is in `h`: the symbols and the rules with their numbers, the
/// terminals and the nonterminals.
pub open spec fn grows(g: GrammarView, h: GrammarView) -> bool {
    &&& g.symbols.is_prefix_of(h.symbols)
    &&& g.rules.is_prefix_of(h.rules)
    &&& g.terminals.subset_of(h.terminals)
    &&& g.nonterminals.subset_of(h.nonterminals)
    &&& g.start is Some ==> h.start is Some
}

/// Whether no warning is lost, and the grammar grows where the part of the file was read.
pub open spec fn outcome_grows(st: Progress, o: Outcome) -> bool {
    match o {
        Outcome::Done(end) => grows(st.g, end.g) && st.warnings.is_prefix_of(end.warnings),
        Outcome::Failed(end, _) => st.warnings.is_prefix_of(end.warnings),
        Outcome::Limit(warnings) => st.warnings.is_prefix_of(warnings),
    }
}

proof fn lemma_grows_trans(a: GrammarView, b: GrammarView, c: GrammarView)
    requires
        grows(a, b),
        grows(b, c),
    ensures
        grows(a, c),
{
}

proof fn lemma_outcome_trans(a: Progress, b: Progress, o: Outcome)
    requires
        grows(a.g, b.g),
        a.warnings.is_prefix_of(b.warnings),
        outcome_grows(b, o),
    ensures
        outcome_grows(a, o),
{
    match o {
        Outcome::Done(end) => {
            lemma_grows_trans(a.g, b.g, end.g);
        },
        _ => {},
    }
}

proof fn lemma_intern_grows(g: GrammarView, name: Seq<char>)
    ensures
        grows(g, intern(g, name).0),
{
}

/// A list of tokens only adds to what has been read.
pub proof fn lemma_token_list_grows(
    s: Seq<char>,
    st: Progress,
    tag: Option<Seq<char>>,
    assoc: Assoc,
    prec: i32,
)
    ensures
        outcome_grows(st, token_list(s, st, tag, assoc, prec)),
    decreases s.len() - st.pos,
{
    let p = skip(s, st.pos);
    if !(st.pos < 0 || st.pos > s.len() || p >= s.len()) {
        lemma_skip(s, st.pos);
        lemma_ident_end(s, p);
        lemma_literal_end(s, p, '\'');
        let e = ident_end(s, p);
        lemma_skip(s, e);
        lemma_number_end(s, skip(s, e));
        if crate::text::is_ident_start(s[p]) {
            let name = s.subrange(p, e);
            let (g, id) = intern(st.g, name);
            lemma_intern_grows(st.g, name);
            let v = token_number(s, e, g);
            let next = now(st, token_number_end(s, e), with_named(g, id, name, v, tag, assoc, prec));
            lemma_token_list_grows(s, next, tag, assoc, prec);
            lemma_outcome_trans(st, next, token_list(s, next, tag, assoc, prec));
        } else if s[p] == '\'' {
            let f = literal_end(s, p, '\'');
            let lit = s.subrange(p, f);
            let (g, id) = intern(st.g, lit);
            lemma_intern_grows(st.g, lit);
            let next = now(st, f, with_literal(g, id, lit, tag, assoc, prec));
            lemma_token_list_grows(s, next, tag, assoc, prec);
            lemma_outcome_trans(st, next, token_list(s, next, tag, assoc, prec));
        }
    }
}

/// A list of types only adds to what has been read.
pub proof fn lemma_type_list_grows(s: Seq<char>, st: Progress, tag: Seq<char>)
    ensures
        grows(st.g, type_list(s, st, tag).g),
        st.warnings.is_prefix_of(type_list(s, st, tag).warnings),
    decreases s.len() - st.pos,
{
    let p = skip(s, st.pos);
    if !(st.pos < 0 || st.pos > s.len() || p >= s.len()) {
        lemma_skip(s, st.pos);
        lemma_ident_end(s, p);
        lemma_literal_end(s, p, '\'');
        if crate::text::is_ident_start(s[p]) || s[p] == '\'' {
            let e = if s[p] == '\'' {
                literal_end(s, p, '\'')
            } else {
                ident_end(s, p)
            };
            let (g, id) = intern(st.g, s.subrange(p, e));
            lemma_intern_grows(st.g, s.subrange(p, e));
            let next = now(st, e, with_tag(g, id, tag));
            lemma_type_list_grows(s, next, tag);
            lemma_grows_trans(st.g, next.g, type_list(s, next, tag).g);
        }
    }
}

proof fn lemma_directive_grows(s: Seq<char>, st: Progress)
    ensures
        outcome_grows(st, directive(s, st)),
{
    let e = ident_end(s, st.pos);
    let at = moved_to(st, e);
    let q = crate::lexer::tag_end(s, e);
    let tag = crate::lexer::tag_at(s, e);
    lemma_token_list_grows(s, moved_to(at, q), tag, Assoc::Unset, 0);
    let raised = now(at, e, GrammarView { next_prec: (st.g.next_prec + 1) as i32, ..st.g });
    lemma_token_list_grows(s, moved_to(raised, q), tag, Assoc::Left, st.g.next_prec);
    lemma_token_list_grows(s, moved_to(raised, q), tag, Assoc::Right, st.g.next_prec);
    lemma_token_list_grows(s, moved_to(raised, q), tag, Assoc::NonAssoc, st.g.next_prec);
    match tag {
        Some(t) => {
            lemma_type_list_grows(s, moved_to(at, q), t);
        },
        None => {},
    }
    let b = skip(s, e);
    lemma_intern_grows(st.g, s.subrange(b, ident_end(s, b)));
}

/// Declarations only add to what has been read: symbols and rules keep their numbers, and
/// terminals and nonterminals stay what they are. No warning is lost, also where a
/// declaration is refused or passes a limit.
pub proof fn law_declarations_grow(s: Seq<char>, st: Progress)
    ensures
        outcome_grows(st, declarations(s, st)),
    decreases s.len() - st.pos,
{
    let p = skip(s, st.pos);
    if !(st.pos < 0 || st.pos > s.len() || p >= s.len()) && !crate::lexer::at(s, p, '%', '%') {
        lemma_skip(s, st.pos);
        if crate::lexer::at(s, p, '%', '{') {
            lemma_find2(s, p + 2, '%', '}');
            let e = find2(s, p + 2, '%', '}');
            let next = now(
                st,
                past(s, e, 2),
                GrammarView {
                    prologue: (st.g.prologue + s.subrange(p + 2, e)).push('\n'),
                    ..st.g
                },
            );
            law_declarations_grow(s, next);
            lemma_outcome_trans(st, next, declarations(s, next));
        } else if s[p] == '%' {
            let at = moved_to(st, p + 1);
            lemma_directive(s, at);
            lemma_directive_grows(s, at);
            match directive(s, at) {
                Outcome::Done(next) => {
                    law_declarations_grow(s, next);
                    lemma_outcome_trans(st, next, declarations(s, next));
                },
                _ => {},
            }
        } else {
            lemma_find(s, p + 1, '\n');
            let next = moved_to(st, find(s, p, '\n'));
            law_declarations_grow(s, next);
        }
    }
}

/// The rest of an alternative only adds to what has been read.
pub proof fn lemma_alternative_rest_grows(s: Seq<char>, st: Progress, alt: RuleView)
    ensures
        outcome_grows(st, alternative_rest(s, st, alt)),
    decreases s.len() - st.pos,
{
    let p = skip(s, st.pos);
    if !(st.pos < 0 || st.pos > s.len() || p >= s.len() || s[p] == ';' || s[p] == '|') {
        lemma_skip(s, st.pos);
        lemma_literal_end(s, p, '\'');
        lemma_ident_end(s, p);
        if s[p] == '{' {
            lemma_braced_end(s, p + 1);
            lemma_skip(s, braced_end(s, p + 1));
            let code = braced_code(s, p + 1);
            let q = skip(s, braced_end(s, p + 1));
            if !alternative_ends(s, q) {
                let (g, id) = with_mid_rule(st.g, code, alt.action_line);
                lemma_intern_grows(st.g, crate::syntax::mid_name(st.g.rules.len()));
                let next = now(st, q, g);
                let more = RuleView { rhs: alt.rhs.push(id), action: Seq::empty(), ..alt };
                lemma_alternative_rest_grows(s, next, more);
                lemma_outcome_trans(st, next, alternative_rest(s, next, more));
            }
        } else if s[p] == '%' {
            if crate::syntax::at_prec(s, p) {
                lemma_ident_end(s, p + 1);
                lemma_skip(s, ident_end(s, p + 1));
                lemma_symbol_end(s, skip(s, ident_end(s, p + 1)));
                let q = skip(s, ident_end(s, p + 1));
                let e = symbol_end(s, q);
                let (g, id) = intern(st.g, s.subrange(q, e));
                lemma_intern_grows(st.g, s.subrange(q, e));
                let next = now(st, e, g);
                let more = RuleView { prec_sym: Some(id), ..alt };
                lemma_alternative_rest_grows(s, next, more);
                lemma_outcome_trans(st, next, alternative_rest(s, next, more));
            }
        } else if s[p] == '\'' {
            let e = literal_end(s, p, '\'');
            let lit = s.subrange(p, e);
            let (g, id) = intern(st.g, lit);
            lemma_intern_grows(st.g, lit);
            let more = RuleView { rhs: alt.rhs.push(id), ..alt };
            let next = if g.terminals.contains(id) || g.nonterminals.contains(id) {
                now(st, e, g)
            } else {
                now(st, e, with_literal(g, id, lit, None, Assoc::Unset, 0))
            };
            lemma_alternative_rest_grows(s, next, more);
            lemma_outcome_trans(st, next, alternative_rest(s, next, more));
        } else if crate::text::is_ident_start(s[p]) {
            let e = ident_end(s, p);
            let (g, id) = intern(st.g, s.subrange(p, e));
            lemma_intern_grows(st.g, s.subrange(p, e));
            let next = now(st, e, g);
            let more = RuleView { rhs: alt.rhs.push(id), ..alt };
            lemma_alternative_rest_grows(s, next, more);
            lemma_outcome_trans(st, next, alternative_rest(s, next, more));
        }
    }
}

/// Alternatives only add to what has been read.
pub proof fn lemma_alternatives_grow(s: Seq<char>, st: Progress, lhs: usize)
    ensures
        outcome_grows(st, alternatives(s, st, lhs)),
    decreases s.len() - st.pos,
{
    if !(st.pos < 0 || st.pos > s.len()) {
        let alt = RuleView {
            lhs,
            rhs: Seq::empty(),
            action: Seq::empty(),
            action_line: line_of(s, st.pos) as usize,
            prec_sym: None,
            rule_number: 0,
        };
        lemma_alternative_rest_grows(s, st, alt);
        match alternative(s, st, lhs) {
            Outcome::Done(st1) => {
                lemma_alternative(s, st, lhs);
                lemma_skip(s, st1.pos);
                let p = skip(s, st1.pos);
                if crate::lexer::at1(s, p, '|') {
                    let next = moved_to(st1, p + 1);
                    lemma_alternatives_grow(s, next, lhs);
                    lemma_outcome_trans(st, next, alternatives(s, next, lhs));
                }
            },
            _ => {},
        }
    }
}

/// A rule only adds to what has been read, and once one has been read there is a start
/// symbol.
pub proof fn law_rule_grows(s: Seq<char>, st: Progress)
    ensures
        outcome_grows(st, rule(s, st)),
        rule(s, st) matches Outcome::Done(end) ==> end.g.start is Some,
{
    let p = skip(s, st.pos);
    let e = ident_end(s, p);
    let name = s.subrange(p, e);
    if e != p {
        let (g, lhs) = intern(st.g, name);
        lemma_intern_grows(st.g, name);
        let h = crate::syntax::with_lhs(g, lhs);
        let q = skip(s, e);
        let next = now(st, q + 1, h);
        lemma_alternatives_grow(s, next, lhs);
        lemma_outcome_trans(st, next, alternatives(s, next, lhs));
    }
}

/// Rules only add to what has been read: symbols and rules keep their numbers, and
/// terminals and nonterminals stay what they are. No warning is lost, also where a rule is
/// refused or passes a limit.
pub proof fn law_rules_grow(s: Seq<char>, st: Progress)
    ensures
        outcome_grows(st, rules(s, st)),
    decreases s.len() - st.pos,
{
    let p = skip(s, st.pos);
    if !(st.pos < 0 || st.pos > s.len() || p >= s.len()) && !crate::lexer::at(s, p, '%', '%') {
        lemma_skip(s, st.pos);
        let at = moved_to(st, p);
        lemma_rule(s, at);
        law_rule_grows(s, at);
        match rule(s, at) {
            Outcome::Done(next) => {
                law_rules_grow(s, next);
                lemma_outcome_trans(st, next, rules(s, next));
            },
            _ => {},
        }
    }
}

} // verus!
