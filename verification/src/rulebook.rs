//! What becomes of the rules of a file: each alternative is a rule, in the order of the text.

use crate::alternatives::{
    are_placed, blocks, final_code, inner, is_called, is_whole, law_alternative, lemma_interned,
    lemma_placed_stays, lemma_prec_stays, made_of, Part,
};
use crate::grammar::{intern, GrammarView, RuleView, EOF_TOKEN};
use crate::growth::{grows, law_rule_grows, law_rules_grow, lemma_alternatives_grow};
use crate::lexer::{at1, ident_end, lemma_ident_end, lemma_skip, line_of, skip};
use crate::syntax::{
    alternative, alternatives, augmented, classified, completed, epilogue, lemma_alternative,
    lemma_rule, moved_to, now, rule, rules, used_symbols, with_lhs, Outcome, Progress,
};
use crate::text::{dec, is_ident, is_ident_start};
use crate::words::law_ident;
use vstd::prelude::*;

verus! {

/// An alternative in the text: where it begins, its parts, and where what ends it stands.
pub struct Alternative {
    pub begin: int,
    pub parts: Seq<Part>,
    pub end: int,
}

/// Whether alternative number `i` stands in the text: behind the bar that ends the one
/// before it, or at `p`.
pub open spec fn is_next_alternative(
    s: Seq<char>,
    p: int,
    alts: Seq<Alternative>,
    i: int,
) -> bool {
    let a = alts[i];
    &&& 0 <= a.begin <= s.len()
    &&& a.begin == if i == 0 {
        p
    } else {
        alts[i - 1].end + 1
    }
    &&& made_of(s, a.begin, a.parts, a.end)
    &&& is_whole(s, a.parts, a.end)
    &&& at1(s, a.end, '|') <==> i < alts.len() - 1
}

/// Whether the text from `p` on is made of the alternatives, with bars between them.
pub open spec fn has_alternatives(s: Seq<char>, p: int, alts: Seq<Alternative>) -> bool {
    alts.len() >= 1 && forall|i: int|
        0 <= i < alts.len() ==> #[trigger] is_next_alternative(s, p, alts, i)
}

/// How many rules there are before those of alternative number `i`, where `n` were there
/// before.
pub open spec fn rules_before(n: nat, alts: Seq<Alternative>, i: int) -> nat
    decreases i,
{
    if i <= 0 {
        n
    } else {
        rules_before(n, alts, i - 1) + blocks(alts[i - 1].parts, inner(alts[i - 1].parts)) + 1
    }
}

/// Whether the grammar has, behind its first `n` rules, those that an alternative of `lhs`
/// with the parts is to add.
pub open spec fn has_rules_of(
    s: Seq<char>,
    h: GrammarView,
    n: nat,
    lhs: usize,
    ps: Seq<Part>,
) -> bool {
    let k = (n + blocks(ps, inner(ps))) as int;
    let r = h.rules[k];
    &&& k < h.rules.len()
    &&& r.lhs == lhs
    &&& r.action == final_code(s, ps)
    &&& are_placed(s, h, n, r, ps, inner(ps))
}

/// Whether the grammar has, behind its first `n` rules, those of all alternatives of `lhs`.
pub open spec fn has_rules_of_all(
    s: Seq<char>,
    h: GrammarView,
    n: nat,
    lhs: usize,
    alts: Seq<Alternative>,
) -> bool {
    &&& rules_before(n, alts, alts.len() as int) <= h.rules.len()
    &&& forall|i: int|
        0 <= i < alts.len() ==> #[trigger] has_rules_of_at(s, h, n, lhs, alts, i)
}

/// Whether the grammar has the rules of alternative number `i` of `lhs`.
pub open spec fn has_rules_of_at(
    s: Seq<char>,
    h: GrammarView,
    n: nat,
    lhs: usize,
    alts: Seq<Alternative>,
    i: int,
) -> bool {
    has_rules_of(s, h, rules_before(n, alts, i), lhs, alts[i].parts)
}

proof fn lemma_rules_stay(
    s: Seq<char>,
    g: GrammarView,
    h: GrammarView,
    n: nat,
    lhs: usize,
    ps: Seq<Part>,
)
    requires
        grows(g, h),
        has_rules_of(s, g, n, lhs, ps),
    ensures
        has_rules_of(s, h, n, lhs, ps),
{
    let k = (n + blocks(ps, inner(ps))) as int;
    let r = g.rules[k];
    assert(h.rules[k] == r);
    lemma_placed_stays(s, g, h, n, r, r, ps, inner(ps));
    lemma_prec_stays(s, g, h, r, r, ps, inner(ps));
}

proof fn lemma_all_rules_stay(
    s: Seq<char>,
    g: GrammarView,
    h: GrammarView,
    n: nat,
    lhs: usize,
    alts: Seq<Alternative>,
)
    requires
        grows(g, h),
        has_rules_of_all(s, g, n, lhs, alts),
    ensures
        has_rules_of_all(s, h, n, lhs, alts),
{
    assert forall|i: int| 0 <= i < alts.len() implies #[trigger] has_rules_of_at(
        s,
        h,
        n,
        lhs,
        alts,
        i,
    ) by {
        assert(has_rules_of_at(s, g, n, lhs, alts, i));
        lemma_rules_stay(s, g, h, rules_before(n, alts, i), lhs, alts[i].parts);
    }
}

/// Where reading goes on behind the last alternative: behind a semicolon, if one stands
/// there.
pub open spec fn behind_alternatives(s: Seq<char>, alts: Seq<Alternative>) -> int {
    let e = alts.last().end;
    if at1(s, e, ';') {
        e + 1
    } else {
        e
    }
}

/// The alternatives from number `i` on.
proof fn lemma_alternatives_from(
    s: Seq<char>,
    st: Progress,
    lhs: usize,
    p: int,
    alts: Seq<Alternative>,
    n: nat,
    i: int,
)
    requires
        has_alternatives(s, p, alts),
        0 <= i < alts.len(),
        st.pos == alts[i].begin,
        st.g.symbols.len() <= usize::MAX ==> st.g.rules.len() == rules_before(n, alts, i),
    ensures
        alternatives(s, st, lhs) matches Outcome::Done(end) && end.pos == behind_alternatives(
            s,
            alts,
        ) && end.warnings == st.warnings && (end.g.symbols.len() <= usize::MAX ==> {
            &&& end.g.rules.len() == rules_before(n, alts, alts.len() as int)
            &&& forall|j: int|
                i <= j < alts.len() ==> #[trigger] has_rules_of_at(s, end.g, n, lhs, alts, j)
        }),
    decreases alts.len() - i,
{
    let a = alts[i];
    assert(is_next_alternative(s, p, alts, i));
    law_alternative(s, st, lhs, a.parts, a.end);
    lemma_alternative(s, st, lhs);
    lemma_alternatives_grow(s, st, lhs);
    let st1 = match alternative(s, st, lhs) {
        Outcome::Done(st1) => st1,
        _ => st,
    };
    lemma_end_stays(s, a.begin, a.parts, a.end);
    lemma_one_alternative_grows(s, st, lhs);
    if st1.g.symbols.len() <= usize::MAX {
        assert(st.g.symbols.len() <= usize::MAX);
        assert(has_rules_of(s, st1.g, rules_before(n, alts, i), lhs, a.parts)) by {
            let ps = a.parts;
            let k = (rules_before(n, alts, i) + blocks(ps, inner(ps))) as int;
            assert(st1.g.rules[k] == st1.g.rules.last());
        }
    }
    if i < alts.len() - 1 {
        let next = moved_to(st1, a.end + 1);
        assert(is_next_alternative(s, p, alts, i + 1));
        lemma_alternatives_from(s, next, lhs, p, alts, n, i + 1);
        lemma_alternatives_grow(s, next, lhs);
        let end = alternatives(s, next, lhs)->Done_0;
        if end.g.symbols.len() <= usize::MAX {
            assert(st1.g.symbols.len() <= usize::MAX);
            lemma_rules_stay(s, st1.g, end.g, rules_before(n, alts, i), lhs, a.parts);
            assert forall|j: int| i <= j < alts.len() implies #[trigger] has_rules_of_at(
                s,
                end.g,
                n,
                lhs,
                alts,
                j,
            ) by {}
        }
    }
}

proof fn lemma_one_alternative_grows(s: Seq<char>, st: Progress, lhs: usize)
    ensures
        crate::growth::outcome_grows(st, alternative(s, st, lhs)),
{
    crate::growth::lemma_alternative_rest_grows(
        s,
        st,
        RuleView {
            lhs,
            rhs: Seq::empty(),
            action: Seq::empty(),
            action_line: crate::lexer::line_of(s, st.pos) as usize,
            prec_sym: None,
            rule_number: 0,
        },
    );
}

proof fn lemma_end_stays(s: Seq<char>, p: int, ps: Seq<Part>, e: int)
    requires
        0 <= p <= s.len(),
        made_of(s, p, ps, e),
    ensures
        skip(s, e) == e,
        0 <= e <= s.len(),
{
    if ps.len() > 0 {
        assert(crate::alternatives::is_next_part(s, p, ps, ps.len() - 1));
        lemma_skip(s, ps.last().to);
    } else {
        lemma_skip(s, p);
    }
}

/// The alternatives of a nonterminal are its rules, in the order of the text, with those of
/// their blocks before them.
pub proof fn law_alternatives(
    s: Seq<char>,
    st: Progress,
    lhs: usize,
    alts: Seq<Alternative>,
)
    requires
        has_alternatives(s, st.pos, alts),
    ensures
        alternatives(s, st, lhs) matches Outcome::Done(end) && end.pos == behind_alternatives(
            s,
            alts,
        ) && end.warnings == st.warnings && (end.g.symbols.len() <= usize::MAX ==> {
            &&& end.g.rules.len() == rules_before(st.g.rules.len(), alts, alts.len() as int)
            &&& st.g.rules.is_prefix_of(end.g.rules)
            &&& has_rules_of_all(s, end.g, st.g.rules.len(), lhs, alts)
        }),
{
    assert(is_next_alternative(s, st.pos, alts, 0));
    lemma_alternatives_from(s, st, lhs, st.pos, alts, st.g.rules.len(), 0);
    lemma_alternatives_grow(s, st, lhs);
}

// ---------------------------------------------------------------------------
// Nonterminals with their alternatives
// ---------------------------------------------------------------------------

/// A nonterminal in the text with its alternatives: where its name stands, and where the
/// colon.
pub struct Definition {
    pub from: int,
    pub to: int,
    pub colon: int,
    pub alts: Seq<Alternative>,
}

/// Whether the nonterminal with its alternatives stands next from `p` on.
pub open spec fn is_definition(s: Seq<char>, p: int, d: Definition) -> bool {
    &&& 0 <= p <= s.len()
    &&& d.from == skip(s, p)
    &&& d.from < d.to
    &&& d.to == ident_end(s, d.from)
    &&& d.colon == skip(s, d.to)
    &&& at1(s, d.colon, ':')
    &&& has_alternatives(s, d.colon + 1, d.alts)
}

/// The name of the nonterminal.
pub open spec fn defined_name(s: Seq<char>, d: Definition) -> Seq<char> {
    s.subrange(d.from, d.to)
}

/// Whether the grammar has, behind its first `n` rules, those of the nonterminal with the
/// name that the text gives, with all its alternatives.
pub open spec fn has_definition(s: Seq<char>, h: GrammarView, n: nat, d: Definition) -> bool {
    exists|lhs: usize| #[trigger]
        is_called(h, lhs, defined_name(s, d)) && h.nonterminals.contains(lhs) && has_rules_of_all(
            s,
            h,
            n,
            lhs,
            d.alts,
        )
}

/// A nonterminal with its alternatives is read as the text says: the symbol with its name is
/// a nonterminal and has a rule for each alternative. Where there was no start symbol, it is
/// that.
pub proof fn law_rule(s: Seq<char>, st: Progress, d: Definition)
    requires
        is_definition(s, st.pos, d),
    ensures
        rule(s, st) matches Outcome::Done(end) && end.pos == behind_alternatives(s, d.alts)
            && end.warnings == st.warnings && (end.g.symbols.len() <= usize::MAX ==> {
            &&& end.g.rules.len() == rules_before(st.g.rules.len(), d.alts, d.alts.len() as int)
            &&& st.g.rules.is_prefix_of(end.g.rules)
            &&& has_definition(s, end.g, st.g.rules.len(), d)
            &&& st.g.start is Some ==> end.g.start == st.g.start
            &&& st.g.start is None ==> end.g.start is Some && is_called(
                end.g,
                end.g.start->0,
                defined_name(s, d),
            )
        }),
{
    lemma_skip(s, st.pos);
    lemma_ident_end(s, d.from);
    lemma_skip(s, d.to);
    let name = defined_name(s, d);
    let (g, lhs) = intern(st.g, name);
    let h = with_lhs(g, lhs);
    let begin = now(st, d.colon + 1, h);
    law_alternatives(s, begin, lhs, d.alts);
    lemma_alternatives_grow(s, begin, lhs);
    lemma_start_stays(s, begin, lhs);
    let end = alternatives(s, begin, lhs)->Done_0;
    if end.g.symbols.len() <= usize::MAX {
        lemma_interned(st.g, name);
        assert(is_called(end.g, lhs, name));
        assert(end.g.nonterminals.contains(lhs));
    }
}

proof fn lemma_rest_start_stays(s: Seq<char>, st: Progress, alt: RuleView)
    ensures
        crate::syntax::alternative_rest(s, st, alt) matches Outcome::Done(end) ==> end.g.start
            == st.g.start,
    decreases s.len() - st.pos,
{
    let p = skip(s, st.pos);
    if !(st.pos < 0 || st.pos > s.len() || p >= s.len() || s[p] == ';' || s[p] == '|') {
        lemma_skip(s, st.pos);
        crate::lexer::lemma_literal_end(s, p, '\'');
        lemma_ident_end(s, p);
        if s[p] == '{' {
            crate::lexer::lemma_braced_end(s, p + 1);
            lemma_skip(s, crate::lexer::braced_end(s, p + 1));
            let q = skip(s, crate::lexer::braced_end(s, p + 1));
            let (g, id) = crate::syntax::with_mid_rule(
                st.g,
                crate::lexer::braced_code(s, p + 1),
                alt.action_line,
            );
            lemma_rest_start_stays(
                s,
                now(st, q, g),
                RuleView { rhs: alt.rhs.push(id), action: Seq::empty(), ..alt },
            );
        } else if s[p] == '%' {
            if crate::syntax::at_prec(s, p) {
                lemma_ident_end(s, p + 1);
                lemma_skip(s, ident_end(s, p + 1));
                crate::syntax::lemma_symbol_end(s, skip(s, ident_end(s, p + 1)));
                let q = skip(s, ident_end(s, p + 1));
                let e = crate::syntax::symbol_end(s, q);
                let (g, id) = intern(st.g, s.subrange(q, e));
                lemma_rest_start_stays(s, now(st, e, g), RuleView { prec_sym: Some(id), ..alt });
            }
        } else if s[p] == '\'' {
            let e = crate::lexer::literal_end(s, p, '\'');
            let lit = s.subrange(p, e);
            let (g, id) = intern(st.g, lit);
            let more = RuleView { rhs: alt.rhs.push(id), ..alt };
            let h = crate::syntax::with_literal(g, id, lit, None, crate::grammar::Assoc::Unset, 0);
            lemma_rest_start_stays(s, now(st, e, g), more);
            lemma_rest_start_stays(s, now(st, e, h), more);
        } else if crate::text::is_ident_start(s[p]) {
            let e = ident_end(s, p);
            let (g, id) = intern(st.g, s.subrange(p, e));
            lemma_rest_start_stays(s, now(st, e, g), RuleView { rhs: alt.rhs.push(id), ..alt });
        }
    }
}

/// Alternatives do not change the start symbol.
proof fn lemma_start_stays(s: Seq<char>, st: Progress, lhs: usize)
    ensures
        alternatives(s, st, lhs) matches Outcome::Done(end) ==> end.g.start == st.g.start,
    decreases s.len() - st.pos,
{
    if !(st.pos < 0 || st.pos > s.len()) {
        lemma_rest_start_stays(
            s,
            st,
            RuleView {
                lhs,
                rhs: Seq::empty(),
                action: Seq::empty(),
                action_line: crate::lexer::line_of(s, st.pos) as usize,
                prec_sym: None,
                rule_number: 0,
            },
        );
        match alternative(s, st, lhs) {
            Outcome::Done(st1) => {
                lemma_alternative(s, st, lhs);
                lemma_skip(s, st1.pos);
                let p = skip(s, st1.pos);
                if at1(s, p, '|') {
                    lemma_start_stays(s, moved_to(st1, p + 1), lhs);
                }
            },
            _ => {},
        }
    }
}

/// Whether definition number `i` stands in the text, behind the one before it or from `p`
/// on.
pub open spec fn is_next_definition(s: Seq<char>, p: int, ds: Seq<Definition>, i: int) -> bool {
    is_definition(s, begin_of(s, p, ds, i), ds[i])
}

/// Where definition number `i` is looked for.
pub open spec fn begin_of(s: Seq<char>, p: int, ds: Seq<Definition>, i: int) -> int {
    if i <= 0 {
        p
    } else {
        behind_alternatives(s, ds[i - 1].alts)
    }
}

/// Whether the text from `p` on is made of the definitions, up to two percent signs or the
/// end of the text.
pub open spec fn has_definitions(s: Seq<char>, p: int, ds: Seq<Definition>) -> bool {
    &&& 0 <= p <= s.len()
    &&& forall|i: int| 0 <= i < ds.len() ==> #[trigger] is_next_definition(s, p, ds, i)
    &&& forall|i: int|
        0 <= i < ds.len() ==> !crate::words::both_at(s, (#[trigger] ds[i]).from, '%', '%')
    &&& {
        let e = skip(s, begin_of(s, p, ds, ds.len() as int));
        e >= s.len() || crate::words::both_at(s, e, '%', '%')
    }
}

/// Where the text behind the definitions begins: behind the two percent signs, or at the end
/// of the text.
pub open spec fn behind_definitions(s: Seq<char>, p: int, ds: Seq<Definition>) -> int {
    let e = skip(s, begin_of(s, p, ds, ds.len() as int));
    if crate::words::both_at(s, e, '%', '%') {
        e + 2
    } else {
        e
    }
}

/// How many rules there are before those of definition number `i`, where `n` were there
/// before.
pub open spec fn rules_before_definition(n: nat, ds: Seq<Definition>, i: int) -> nat
    decreases i,
{
    if i <= 0 {
        n
    } else {
        rules_before(rules_before_definition(n, ds, i - 1), ds[i - 1].alts, ds[i - 1].alts.len()
            as int)
    }
}

/// Whether the grammar has the rules of definition number `i`.
pub open spec fn has_definition_at(
    s: Seq<char>,
    h: GrammarView,
    n: nat,
    ds: Seq<Definition>,
    i: int,
) -> bool {
    has_definition(s, h, rules_before_definition(n, ds, i), ds[i])
}

proof fn lemma_definition_stays(s: Seq<char>, g: GrammarView, h: GrammarView, n: nat, d: Definition)
    requires
        grows(g, h),
        has_definition(s, g, n, d),
    ensures
        has_definition(s, h, n, d),
{
    let lhs = choose|lhs: usize| #[trigger]
        is_called(g, lhs, defined_name(s, d)) && g.nonterminals.contains(lhs) && has_rules_of_all(
            s,
            g,
            n,
            lhs,
            d.alts,
        );
    lemma_all_rules_stay(s, g, h, n, lhs, d.alts);
    assert(is_called(h, lhs, defined_name(s, d)));
}

proof fn lemma_rules_from(
    s: Seq<char>,
    st: Progress,
    p: int,
    ds: Seq<Definition>,
    n: nat,
    i: int,
)
    requires
        has_definitions(s, p, ds),
        0 <= i <= ds.len(),
        0 <= st.pos <= s.len(),
        st.pos == begin_of(s, p, ds, i),
        st.g.symbols.len() <= usize::MAX ==> st.g.rules.len() == rules_before_definition(n, ds, i),
    ensures
        rules(s, st) matches Outcome::Done(end) && end.pos == behind_definitions(s, p, ds)
            && end.warnings == st.warnings && (end.g.symbols.len() <= usize::MAX ==> {
            &&& end.g.rules.len() == rules_before_definition(n, ds, ds.len() as int)
            &&& forall|j: int|
                i <= j < ds.len() ==> #[trigger] has_definition_at(s, end.g, n, ds, j)
            &&& st.g.start is Some ==> end.g.start == st.g.start
            &&& st.g.start is None && i < ds.len() ==> end.g.start is Some && is_called(
                end.g,
                end.g.start->0,
                defined_name(s, ds[i]),
            )
        }),
    decreases ds.len() - i,
{
    lemma_skip(s, st.pos);
    if i < ds.len() {
        let d = ds[i];
        assert(is_next_definition(s, p, ds, i));
        let q = skip(s, st.pos);
        let here = moved_to(st, q);
        assert(is_definition(s, q, d));
        law_rule(s, here, d);
        law_rule_grows(s, here);
        lemma_rule(s, here);
        let next = rule(s, here)->Done_0;
        assert(ds[i].from == q);
        assert(!crate::lexer::at(s, q, '%', '%'));
        lemma_rules_from(s, next, p, ds, n, i + 1);
        law_rules_grow(s, next);
        let end = rules(s, next)->Done_0;
        if end.g.symbols.len() <= usize::MAX {
            lemma_definition_stays(s, next.g, end.g, rules_before_definition(n, ds, i), d);
            assert forall|j: int| i <= j < ds.len() implies #[trigger] has_definition_at(
                s,
                end.g,
                n,
                ds,
                j,
            ) by {}
        }
    }
}

/// The rules of a file are read as the text says: in the order of the text, each nonterminal
/// has a rule for each of its alternatives. The first nonterminal is the start symbol where
/// none is declared.
pub proof fn law_rules(s: Seq<char>, st: Progress, ds: Seq<Definition>)
    requires
        has_definitions(s, st.pos, ds),
    ensures
        rules(s, st) matches Outcome::Done(end) && end.pos == behind_definitions(s, st.pos, ds)
            && end.warnings == st.warnings && (end.g.symbols.len() <= usize::MAX ==> {
            let n = st.g.rules.len();
            &&& end.g.rules.len() == rules_before_definition(n, ds, ds.len() as int)
            &&& forall|j: int|
                0 <= j < ds.len() ==> #[trigger] has_definition_at(s, end.g, n, ds, j)
            &&& st.g.start is Some ==> end.g.start == st.g.start
            &&& st.g.start is None && ds.len() > 0 ==> end.g.start is Some && is_called(
                end.g,
                end.g.start->0,
                defined_name(s, ds[0]),
            )
        }),
{
    lemma_rules_from(s, st, st.pos, ds, st.g.rules.len(), 0);
}

// ---------------------------------------------------------------------------
// The grammar is completed
// ---------------------------------------------------------------------------

proof fn lemma_classified_rest(g: GrammarView, syms: Seq<usize>)
    ensures
        classified(g, syms) matches Some(h) ==> h.rules == g.rules && h.start == g.start
            && h.symbols == g.symbols && h.nonterminals == g.nonterminals
            && g.terminals.subset_of(h.terminals),
    decreases syms.len(),
{
    if syms.len() > 0 {
        lemma_classified_rest(g, syms.drop_last());
    }
}

/// What completes a grammar puts one rule before those that were read, which derives the
/// start symbol and the end of the input from a symbol of its own. All others stay what they
/// are, with numbers one higher, and so do the symbols and the nonterminals.
pub proof fn law_completed(st: Progress)
    ensures
        completed(st) matches Outcome::Done(end) ==> {
            let g = st.g;
            let h = end.g;
            &&& h.rules.len() == g.rules.len() + 1
            &&& h.rules[0].lhs == h.augmented_start
            &&& h.rules[0].rhs.len() == 2
            &&& g.start == Some(h.rules[0].rhs[0])
            &&& h.rules[0].rhs[1] == EOF_TOKEN
            &&& forall|i: int|
                0 <= i < g.rules.len() ==> {
                    let a = #[trigger] g.rules[i];
                    let b = h.rules[i + 1];
                    &&& b.lhs == a.lhs
                    &&& b.rhs == a.rhs
                    &&& b.action == a.action
                    &&& b.action_line == a.action_line
                    &&& b.prec_sym == a.prec_sym
                }
            &&& h.start == g.start
            &&& g.symbols.is_prefix_of(h.symbols)
            &&& h.symbols.len() <= usize::MAX ==> is_called(h, h.augmented_start, "$accept"@)
            &&& h.nonterminals == g.nonterminals.insert(h.augmented_start)
            &&& g.terminals.subset_of(h.terminals)
            &&& end.warnings == st.warnings
        },
{
    lemma_classified_rest(st.g, used_symbols(st.g.rules));
    match classified(st.g, used_symbols(st.g.rules)) {
        Some(h) => {
            match h.start {
                Some(start) => {
                    let a = augmented(h, start);
                    let u = intern(h, "$accept"@);
                    if u.0.symbols.len() <= usize::MAX {
                        lemma_interned(h, "$accept"@);
                    }
                    assert forall|i: int| 0 <= i < st.g.rules.len() implies a.rules[i + 1].rhs
                        == (#[trigger] st.g.rules[i]).rhs by {}
                },
                None => {},
            }
        },
        None => {},
    }
}

/// The epilogue is the text behind the rules, as it stands.
pub proof fn law_epilogue(s: Seq<char>, st: Progress, ds: Seq<Definition>)
    requires
        has_definitions(s, st.pos, ds),
    ensures
        rules(s, st) matches Outcome::Done(end) && epilogue(s, end).g.epilogue == s.skip(
            behind_definitions(s, st.pos, ds),
        ) && epilogue(s, end).g.rules == end.g.rules,
{
    law_rules(s, st, ds);
    let n = ds.len() as int;
    if n > 0 {
        assert(is_next_definition(s, st.pos, ds, n - 1));
        let alts = ds[n - 1].alts;
        let a = alts[alts.len() - 1];
        let begin = ds[n - 1].colon + 1;
        assert(is_next_alternative(s, begin, alts, alts.len() - 1));
        lemma_end_stays(s, a.begin, a.parts, a.end);
    }
    lemma_skip(s, begin_of(s, st.pos, ds, n));
    let e = behind_definitions(s, st.pos, ds);
    assert(s.subrange(e, s.len() as int) =~= s.skip(e));
}

/// The symbols that rules use are those of the rules before and then those of the rules
/// behind; one rule uses the symbols on its right-hand side, in their order.
pub proof fn law_used_in_rules(a: Seq<RuleView>, b: Seq<RuleView>, r: RuleView)
    ensures
        used_symbols(a + b) == used_symbols(a) + used_symbols(b),
        used_symbols(seq![r]) == r.rhs,
    decreases b.len(),
{
    assert(seq![r].drop_last() =~= Seq::empty());
    assert(used_symbols(Seq::<RuleView>::empty()) =~= Seq::empty());
    assert(used_symbols(seq![r]) =~= r.rhs);
    if b.len() == 0 {
        assert(a + b =~= a);
        assert(used_symbols(a) + used_symbols(b) =~= used_symbols(a));
    } else {
        assert((a + b).drop_last() =~= a + b.drop_last());
        assert((a + b).last() == b.last());
        law_used_in_rules(a, b.drop_last(), r);
        assert(used_symbols(a) + (used_symbols(b.drop_last()) + b.last().rhs) =~= used_symbols(a)
            + used_symbols(b.drop_last()) + b.last().rhs);
    }
}

/// A rule is refused where no name stands, and where no colon stands behind the name; an
/// alternative is refused at a character that no part of one begins with and that does not
/// end it. The message names the line.
pub proof fn law_refused_rules(s: Seq<char>, st: Progress, lhs: usize)
    requires
        0 <= st.pos <= s.len(),
    ensures
        ({
            let p = skip(s, st.pos);
            let e = ident_end(s, p);
            let q = skip(s, e);
            &&& p == s.len() || !is_ident(s[p]) ==> (rule(s, st) matches Outcome::Failed(end, why)
                && why == "line "@ + dec(line_of(s, p)) + ": expected rule name"@ && end.g == st.g)
            &&& p < s.len() && is_ident(s[p]) && !(q < s.len() && s[q] == ':') ==> (rule(s, st)
                matches Outcome::Failed(_, why) && why == "line "@ + dec(line_of(s, q))
                + ": expected ':' after '"@ + s.subrange(p, e) + "'"@)
            &&& p < s.len() && s[p] != ';' && s[p] != '|' && s[p] != '{' && s[p] != '%' && s[p]
                != '\'' && !is_ident_start(s[p]) ==> (alternative(s, st, lhs) matches Outcome::Failed(
                _,
                why,
            ) && why == "line "@ + dec(line_of(s, p)) + ": unexpected character '"@ + seq![s[p]]
                + "' in rule"@)
        }),
{
    lemma_skip(s, st.pos);
    let p = skip(s, st.pos);
    law_ident(s, p);
    let e = ident_end(s, p);
    if p < s.len() && is_ident(s[p]) && e == p {
        assert(!is_ident(s[e]));
    }
    lemma_skip(s, e);
    let q = skip(s, e);
    reveal_strlit(": ");
    reveal_strlit("expected rule name");
    reveal_strlit(": expected rule name");
    reveal_strlit("expected ':' after '");
    reveal_strlit(": expected ':' after '");
    reveal_strlit("unexpected character '");
    reveal_strlit(": unexpected character '");
    assert(": "@ + "expected rule name"@ =~= ": expected rule name"@);
    assert(": "@ + "expected ':' after '"@ =~= ": expected ':' after '"@);
    assert(": "@ + "unexpected character '"@ =~= ": unexpected character '"@);
    let a = "line "@ + dec(line_of(s, p));
    let b = "line "@ + dec(line_of(s, q));
    let name = s.subrange(p, e);
    assert(a + ": "@ + "expected rule name"@ =~= a + (": "@ + "expected rule name"@));
    assert(b + ": "@ + ("expected ':' after '"@ + name + "'"@) =~= b + (": "@
        + "expected ':' after '"@) + name + "'"@);
    if p < s.len() {
        assert(a + ": "@ + ("unexpected character '"@ + seq![s[p]] + "' in rule"@) =~= a + (": "@
            + "unexpected character '"@) + seq![s[p]] + "' in rule"@);
    }
}

/// A grammar is completed where it has a start symbol and there is room for the numbers of
/// the symbols that are only used.
pub proof fn law_completed_done(st: Progress)
    requires
        st.g.next_token_value + used_symbols(st.g.rules).len() < i32::MAX,
        st.g.start is Some,
    ensures
        completed(st) is Done,
{
    lemma_classified_rest(st.g, used_symbols(st.g.rules));
    lemma_classified_some(st.g, used_symbols(st.g.rules));
}

proof fn lemma_classified_some(g: GrammarView, syms: Seq<usize>)
    requires
        g.next_token_value + syms.len() < i32::MAX,
    ensures
        classified(g, syms) matches Some(h) && h.next_token_value <= g.next_token_value
            + syms.len(),
    decreases syms.len(),
{
    if syms.len() > 0 {
        lemma_classified_some(g, syms.drop_last());
    }
}

} // verus!
