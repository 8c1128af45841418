//! The numbers that one list of tokens gives to the names in it.

use crate::grammar::{
    empty_grammar, intern, is_symbol, wf, wf_token, with_tag, Assoc, GrammarView, RuleView,
    TokenView,
};
use crate::growth::{law_declarations_grow, law_rules_grow, lemma_token_list_grows};
use crate::lexer::{
    at, at1, braced_code, braced_end, find, find2, ident_end, lemma_braced_end, lemma_find,
    lemma_find2, lemma_ident_end, lemma_literal_end, lemma_number_end, lemma_skip, line_of,
    literal_end, number_at, past, skip, tag_at, tag_end,
};
use crate::syntax::{
    alternative, alternative_ends, alternative_rest, alternatives, at_number, at_prec, augmented,
    classified, completed, declarations, directive, epilogue, grammar_file, lemma_alternative,
    lemma_directive, lemma_rule, lemma_symbol_end, mid_name, moved_to, next_after, now, rule, rules,
    separator, symbol_end, token_list, token_number, token_number_end, type_list, unclassified,
    used_symbols, with_lhs, with_literal, with_mid_rule, with_named, Outcome, Progress,
};
use crate::text::is_ident_start;
use vstd::prelude::*;

verus! {

/// The names in a list of tokens to which the file gives no number where they stand last,
/// with `names` for the part of the list before `p`.
pub open spec fn unnumbered(s: Seq<char>, p: int, names: Set<Seq<char>>) -> Set<Seq<char>>
    decreases s.len() - p,
{
    let q = skip(s, p);
    if p < 0 || p > s.len() || q >= s.len() {
        names
    } else if is_ident_start(s[q]) {
        proof {
            lemma_skip(s, p);
            lemma_ident_end(s, q);
            lemma_skip(s, ident_end(s, q));
            lemma_number_end(s, skip(s, ident_end(s, q)));
        }
        let e = ident_end(s, q);
        let name = s.subrange(q, e);
        unnumbered(
            s,
            token_number_end(s, e),
            if at_number(s, skip(s, e)) {
                names.remove(name)
            } else {
                names.insert(name)
            },
        )
    } else if s[q] == '\'' {
        proof {
            lemma_skip(s, p);
            lemma_literal_end(s, q, '\'');
        }
        unnumbered(s, literal_end(s, q, '\''), names)
    } else {
        names
    }
}

/// The number of the token with the name, if there is such a token and it has a number.
pub open spec fn number_named(g: GrammarView, name: Seq<char>) -> Option<i32> {
    let id = g.symbols.index_of(name) as usize;
    if g.symbols.contains(name) && g.tokens.dom().contains(id) {
        g.tokens[id].value
    } else {
        None
    }
}

/// Whether the number that is given out next is higher than those of all named tokens.
pub open spec fn numbers_below(g: GrammarView) -> bool {
    forall|x: usize| #[trigger]
        g.tokens.dom().contains(x) && !g.tokens[x].is_literal ==> (g.tokens[x].value matches Some(v)
            && v < g.next_token_value)
}

/// Whether the names are those of tokens whose numbers lie from `n` on and below the one
/// that is given out next, no two of them the same.
pub open spec fn numbered_apart(g: GrammarView, n: i32, names: Set<Seq<char>>) -> bool {
    &&& forall|a: Seq<char>| #[trigger]
        names.contains(a) ==> (number_named(g, a) matches Some(v) && n <= v < g.next_token_value)
    &&& forall|a: Seq<char>, b: Seq<char>| #[trigger]
        names.contains(a) && #[trigger] names.contains(b) && a != b ==> number_named(g, a)
            != number_named(g, b)
}

/// Whether each of the names begins as names do.
spec fn are_names(names: Set<Seq<char>>) -> bool {
    forall|a: Seq<char>| #[trigger] names.contains(a) ==> a.len() > 0 && is_ident_start(a[0])
}

/// What is known of the token with one name changes no number of a token with another.
proof fn lemma_number_kept(
    g: GrammarView,
    name: Seq<char>,
    h: GrammarView,
    t: TokenView,
    a: Seq<char>,
)
    requires
        g.symbols.no_duplicates(),
        intern(g, name).0.symbols.len() <= usize::MAX,
        h.symbols == intern(g, name).0.symbols,
        h.tokens == g.tokens.insert(intern(g, name).1, t),
        g.symbols.contains(a),
        a != name,
    ensures
        number_named(h, a) == number_named(g, a),
{
    let i = g.symbols.index_of(a);
    assert(g.symbols[i] == a);
    assert(h.symbols[i] == a);
    assert(h.symbols.contains(a));
    let j = h.symbols.index_of(a);
    assert(h.symbols[j] == a);
    assert(i == j);
    if g.symbols.contains(name) {
        let k = g.symbols.index_of(name);
        assert(g.symbols[k] == name);
    }
}

/// What is known of a token is what is found under its name.
proof fn lemma_number_set(g: GrammarView, name: Seq<char>, h: GrammarView, t: TokenView)
    requires
        g.symbols.no_duplicates(),
        intern(g, name).0.symbols.len() <= usize::MAX,
        h.symbols == intern(g, name).0.symbols,
        h.tokens == g.tokens.insert(intern(g, name).1, t),
    ensures
        h.symbols.no_duplicates(),
        number_named(h, name) == t.value,
{
    let id = intern(g, name).1;
    if g.symbols.contains(name) {
        let k = g.symbols.index_of(name);
        assert(g.symbols[k] == name);
    }
    assert(h.symbols[id as int] == name);
    assert(h.symbols.contains(name));
    let j = h.symbols.index_of(name);
    assert(h.symbols[j] == name);
}

/// One name of a list keeps what holds of the names before it, and joins them where it
/// takes the number that is given out next.
proof fn lemma_named(
    g0: GrammarView,
    name: Seq<char>,
    v: i32,
    tag: Option<Seq<char>>,
    assoc: Assoc,
    prec: i32,
    n: i32,
    names: Set<Seq<char>>,
)
    requires
        g0.symbols.no_duplicates(),
        intern(g0, name).0.symbols.len() <= usize::MAX,
        numbers_below(g0),
        n <= g0.next_token_value,
        numbered_apart(g0, n, names),
        next_after(g0.next_token_value, v) <= i32::MAX,
    ensures
        ({
            let (g, id) = intern(g0, name);
            let h = with_named(g, id, name, v, tag, assoc, prec);
            &&& h.symbols.no_duplicates()
            &&& numbers_below(h)
            &&& g0.next_token_value <= h.next_token_value
            &&& numbered_apart(h, n, names.remove(name))
            &&& v == g0.next_token_value ==> numbered_apart(h, n, names.insert(name))
        }),
{
    let (g, id) = intern(g0, name);
    let h = with_named(g, id, name, v, tag, assoc, prec);
    let t = h.tokens[id];
    lemma_number_set(g0, name, h, t);
    assert forall|a: Seq<char>| #[trigger] names.contains(a) && a != name implies number_named(h, a)
        == number_named(g0, a) by {
        assert(number_named(g0, a) is Some);
        lemma_number_kept(g0, name, h, t, a);
    }
}

/// A literal of a list keeps what holds of the names before it.
proof fn lemma_literal(
    g0: GrammarView,
    lit: Seq<char>,
    tag: Option<Seq<char>>,
    assoc: Assoc,
    prec: i32,
    n: i32,
    names: Set<Seq<char>>,
)
    requires
        g0.symbols.no_duplicates(),
        intern(g0, lit).0.symbols.len() <= usize::MAX,
        numbers_below(g0),
        numbered_apart(g0, n, names),
        !names.contains(lit),
    ensures
        ({
            let (g, id) = intern(g0, lit);
            let h = with_literal(g, id, lit, tag, assoc, prec);
            &&& h.symbols.no_duplicates()
            &&& numbers_below(h)
            &&& g0.next_token_value == h.next_token_value
            &&& numbered_apart(h, n, names)
        }),
{
    let (g, id) = intern(g0, lit);
    let h = with_literal(g, id, lit, tag, assoc, prec);
    let t = h.tokens[id];
    lemma_number_set(g0, lit, h, t);
    assert forall|a: Seq<char>| #[trigger] names.contains(a) implies number_named(h, a)
        == number_named(g0, a) by {
        assert(number_named(g0, a) is Some);
        lemma_number_kept(g0, lit, h, t, a);
    }
}

/// The rest of a list keeps what holds of the names before it, and adds to them.
proof fn lemma_list(
    s: Seq<char>,
    st: Progress,
    tag: Option<Seq<char>>,
    assoc: Assoc,
    prec: i32,
    n: i32,
    names: Set<Seq<char>>,
)
    requires
        st.g.symbols.no_duplicates(),
        numbers_below(st.g),
        n <= st.g.next_token_value,
        numbered_apart(st.g, n, names),
        are_names(names),
    ensures
        token_list(s, st, tag, assoc, prec) matches Outcome::Done(end) ==> end.g.symbols.len()
            <= usize::MAX ==> {
            &&& st.g.next_token_value <= end.g.next_token_value
            &&& numbers_below(end.g)
            &&& numbered_apart(end.g, n, unnumbered(s, st.pos, names))
        },
    decreases s.len() - st.pos,
{
    let p = skip(s, st.pos);
    if !(st.pos < 0 || st.pos > s.len() || p >= s.len()) {
        lemma_skip(s, st.pos);
        lemma_ident_end(s, p);
        lemma_literal_end(s, p, '\'');
        let e = ident_end(s, p);
        lemma_skip(s, e);
        lemma_number_end(s, skip(s, e));
        if is_ident_start(s[p]) {
            let name = s.subrange(p, e);
            let (g, id) = intern(st.g, name);
            let v = token_number(s, e, g);
            let next = now(st, token_number_end(s, e), with_named(g, id, name, v, tag, assoc, prec));
            lemma_token_list_grows(s, next, tag, assoc, prec);
            if next_after(g.next_token_value, v) <= i32::MAX && g.symbols.len() <= usize::MAX {
                lemma_named(st.g, name, v, tag, assoc, prec, n, names);
                let more = if at_number(s, skip(s, e)) {
                    names.remove(name)
                } else {
                    names.insert(name)
                };
                assert(name[0] == s[p]);
                lemma_list(s, next, tag, assoc, prec, n, more);
            }
        } else if s[p] == '\'' {
            let f = literal_end(s, p, '\'');
            let lit = s.subrange(p, f);
            let (g, id) = intern(st.g, lit);
            let next = now(st, f, with_literal(g, id, lit, tag, assoc, prec));
            lemma_token_list_grows(s, next, tag, assoc, prec);
            if g.symbols.len() <= usize::MAX {
                assert(lit[0] == '\'');
                lemma_literal(st.g, lit, tag, assoc, prec, n, names);
                lemma_list(s, next, tag, assoc, prec, n, names);
            }
        }
    }
}

/// In one list of tokens, the names to which the file gives no number get numbers from the
/// one that was next on, no two of them the same and none of them that of a token before,
/// and afterwards the number that is given
/// out next is higher than those of all named tokens. Where a name stands more than once in
/// the list, the last place counts.
pub proof fn law_list_numbers(
    s: Seq<char>,
    st: Progress,
    tag: Option<Seq<char>>,
    assoc: Assoc,
    prec: i32,
)
    requires
        wf(st.g),
    ensures
        token_list(s, st, tag, assoc, prec) matches Outcome::Done(end) ==> end.g.symbols.len()
            <= usize::MAX ==> {
            &&& st.g.next_token_value <= end.g.next_token_value
            &&& numbers_below(end.g)
            &&& numbered_apart(
                end.g,
                st.g.next_token_value,
                unnumbered(s, st.pos, Set::empty()),
            )
            &&& forall|a: Seq<char>, x: usize| #[trigger]
                unnumbered(s, st.pos, Set::empty()).contains(a)
                    && #[trigger] st.g.tokens.dom().contains(x) && !st.g.tokens[x].is_literal
                    ==> number_named(end.g, a) != st.g.tokens[x].value
        },
{
    assert forall|x: usize| #[trigger]
        st.g.tokens.dom().contains(x) && !st.g.tokens[x].is_literal implies (
    st.g.tokens[x].value matches Some(v) && v < st.g.next_token_value) by {
        assert(wf_token(st.g, x, st.g.tokens[x]));
    }
    lemma_list(s, st, tag, assoc, prec, st.g.next_token_value, Set::empty());
}

// ---------------------------------------------------------------------------
// The names of a list one by one
// ---------------------------------------------------------------------------

/// The names in a list of tokens, each with whether the file gives it a number where it
/// stands last, with `m` for the part of the list before `p`.
pub open spec fn mentions(s: Seq<char>, p: int, m: Map<Seq<char>, bool>) -> Map<Seq<char>, bool>
    decreases s.len() - p,
{
    let q = skip(s, p);
    if p < 0 || p > s.len() || q >= s.len() {
        m
    } else if is_ident_start(s[q]) {
        proof {
            lemma_skip(s, p);
            lemma_ident_end(s, q);
            lemma_skip(s, ident_end(s, q));
            lemma_number_end(s, skip(s, ident_end(s, q)));
        }
        let e = ident_end(s, q);
        mentions(
            s,
            token_number_end(s, e),
            m.insert(s.subrange(q, e), at_number(s, skip(s, e))),
        )
    } else if s[q] == '\'' {
        proof {
            lemma_skip(s, p);
            lemma_literal_end(s, q, '\'');
        }
        mentions(s, literal_end(s, q, '\''), m)
    } else {
        m
    }
}

/// A list mentions the names that were mentioned before, and those that it mentions by
/// itself.
proof fn lemma_mentions(s: Seq<char>, p: int, m: Map<Seq<char>, bool>, a: Seq<char>)
    ensures
        mentions(s, p, m).dom().contains(a) <==> m.dom().contains(a) || mentions(
            s,
            p,
            Map::empty(),
        ).dom().contains(a),
    decreases s.len() - p,
{
    let q = skip(s, p);
    if !(p < 0 || p > s.len() || q >= s.len()) {
        lemma_skip(s, p);
        lemma_ident_end(s, q);
        lemma_literal_end(s, q, '\'');
        let e = ident_end(s, q);
        lemma_skip(s, e);
        lemma_number_end(s, skip(s, e));
        if is_ident_start(s[q]) {
            let name = s.subrange(q, e);
            let b = at_number(s, skip(s, e));
            lemma_mentions(s, token_number_end(s, e), m.insert(name, b), a);
            lemma_mentions(s, token_number_end(s, e), Map::empty().insert(name, b), a);
        } else if s[q] == '\'' {
            lemma_mentions(s, literal_end(s, q, '\''), m, a);
        }
    }
}

/// A list of tokens does not change the number of a name that it does not mention.
pub proof fn law_list_kept(
    s: Seq<char>,
    st: Progress,
    tag: Option<Seq<char>>,
    assoc: Assoc,
    prec: i32,
    a: Seq<char>,
)
    requires
        st.g.symbols.no_duplicates(),
        st.g.symbols.contains(a),
        a.len() > 0,
        is_ident_start(a[0]),
        !mentions(s, st.pos, Map::empty()).dom().contains(a),
    ensures
        token_list(s, st, tag, assoc, prec) matches Outcome::Done(end) ==> end.g.symbols.len()
            <= usize::MAX ==> number_named(end.g, a) == number_named(st.g, a),
    decreases s.len() - st.pos,
{
    let p = skip(s, st.pos);
    if !(st.pos < 0 || st.pos > s.len() || p >= s.len()) {
        lemma_skip(s, st.pos);
        lemma_ident_end(s, p);
        lemma_literal_end(s, p, '\'');
        let e = ident_end(s, p);
        lemma_skip(s, e);
        lemma_number_end(s, skip(s, e));
        if is_ident_start(s[p]) {
            let name = s.subrange(p, e);
            let (g, id) = intern(st.g, name);
            let v = token_number(s, e, g);
            let h = with_named(g, id, name, v, tag, assoc, prec);
            let next = now(st, token_number_end(s, e), h);
            lemma_token_list_grows(s, next, tag, assoc, prec);
            let b = at_number(s, skip(s, e));
            lemma_mentions(s, token_number_end(s, e), Map::empty().insert(name, b), a);
            if next_after(g.next_token_value, v) <= i32::MAX && g.symbols.len() <= usize::MAX {
                lemma_number_set(st.g, name, h, h.tokens[id]);
                lemma_number_kept(st.g, name, h, h.tokens[id], a);
                lemma_still_there(st.g, name, a);
                law_list_kept(s, next, tag, assoc, prec, a);
            }
        } else if s[p] == '\'' {
            let f = literal_end(s, p, '\'');
            let lit = s.subrange(p, f);
            let (g, id) = intern(st.g, lit);
            let h = with_literal(g, id, lit, tag, assoc, prec);
            let next = now(st, f, h);
            lemma_token_list_grows(s, next, tag, assoc, prec);
            if g.symbols.len() <= usize::MAX {
                assert(lit[0] == '\'');
                lemma_number_set(st.g, lit, h, h.tokens[id]);
                lemma_number_kept(st.g, lit, h, h.tokens[id], a);
                lemma_still_there(st.g, lit, a);
                law_list_kept(s, next, tag, assoc, prec, a);
            }
        }
    }
}

proof fn lemma_still_there(g: GrammarView, name: Seq<char>, a: Seq<char>)
    requires
        g.symbols.contains(a),
    ensures
        intern(g, name).0.symbols.contains(a),
{
    let i = choose|i: int| 0 <= i < g.symbols.len() && g.symbols[i] == a;
    assert(intern(g, name).0.symbols[i] == a);
}

/// The name that stands first in a list of tokens and is not mentioned again gets the number
/// that the file gives behind it, and where there is none just the one that is given out
/// next.
pub proof fn law_list_first(
    s: Seq<char>,
    st: Progress,
    tag: Option<Seq<char>>,
    assoc: Assoc,
    prec: i32,
    p: int,
    e: int,
)
    requires
        st.g.symbols.no_duplicates(),
        0 <= st.pos <= s.len(),
        p == skip(s, st.pos),
        p < s.len(),
        is_ident_start(s[p]),
        e == ident_end(s, p),
        !mentions(s, token_number_end(s, e), Map::empty()).dom().contains(s.subrange(p, e)),
    ensures
        token_list(s, st, tag, assoc, prec) matches Outcome::Done(end) ==> end.g.symbols.len()
            <= usize::MAX ==> number_named(end.g, s.subrange(p, e)) == Some(
            if at_number(s, skip(s, e)) {
                number_at(s, skip(s, e))
            } else {
                st.g.next_token_value
            },
        ),
{
    lemma_skip(s, st.pos);
    lemma_ident_end(s, p);
    lemma_skip(s, e);
    lemma_number_end(s, skip(s, e));
    let name = s.subrange(p, e);
    assert(name[0] == s[p]);
    let (g, id) = intern(st.g, name);
    let v = token_number(s, e, g);
    let h = with_named(g, id, name, v, tag, assoc, prec);
    let next = now(st, token_number_end(s, e), h);
    lemma_token_list_grows(s, next, tag, assoc, prec);
    if next_after(g.next_token_value, v) <= i32::MAX && g.symbols.len() <= usize::MAX {
        lemma_number_set(st.g, name, h, h.tokens[id]);
        assert(h.symbols.contains(name));
        law_list_kept(s, next, tag, assoc, prec, name);
    }
}

// ---------------------------------------------------------------------------
// The numbers of a whole file
// ---------------------------------------------------------------------------

/// Whether the symbol is a token with a name, not a literal.
pub open spec fn is_named_token(g: GrammarView, x: usize) -> bool {
    g.tokens.dom().contains(x) && !g.tokens[x].is_literal
}

/// The names that the directive behind the percent sign at `p - 1` declares as tokens, each
/// with whether the file gives it a number, added to those in `m`.
pub open spec fn directive_mentions(s: Seq<char>, p: int, m: Map<Seq<char>, bool>) -> Map<
    Seq<char>,
    bool,
> {
    let e = ident_end(s, p);
    let word = s.subrange(p, e);
    if word == "token"@ || word == "left"@ || word == "right"@ || word == "nonassoc"@ {
        mentions(s, tag_end(s, e), m)
    } else {
        m
    }
}

/// The names that the declarations from here on declare as tokens, each with whether the
/// file gives it a number where it stands last, added to those in `m`.
pub open spec fn declared(s: Seq<char>, st: Progress, m: Map<Seq<char>, bool>) -> Map<
    Seq<char>,
    bool,
>
    decreases s.len() - st.pos,
{
    let p = skip(s, st.pos);
    if st.pos < 0 || st.pos > s.len() || p >= s.len() || at(s, p, '%', '%') {
        m
    } else if at(s, p, '%', '{') {
        proof {
            lemma_skip(s, st.pos);
            lemma_find2(s, p + 2, '%', '}');
        }
        let e = find2(s, p + 2, '%', '}');
        let g = GrammarView {
            prologue: (st.g.prologue + s.subrange(p + 2, e)).push('\n'),
            ..st.g
        };
        declared(s, now(st, past(s, e, 2), g), m)
    } else if s[p] == '%' {
        proof {
            lemma_skip(s, st.pos);
            lemma_directive(s, moved_to(st, p + 1));
        }
        match directive(s, moved_to(st, p + 1)) {
            Outcome::Done(st1) => declared(s, st1, directive_mentions(s, p + 1, m)),
            _ => m,
        }
    } else {
        proof {
            lemma_skip(s, st.pos);
            lemma_find(s, p + 1, '\n');
        }
        declared(s, moved_to(st, find(s, p, '\n')), m)
    }
}

/// Whether all tokens are terminals.
pub open spec fn tokens_are_terminals(g: GrammarView) -> bool {
    forall|t: usize| #[trigger] g.tokens.dom().contains(t) ==> g.terminals.contains(t)
}

/// Whether the file gives the name a number where it stands last.
pub open spec fn is_numbered(m: Map<Seq<char>, bool>, name: Seq<char>) -> bool {
    m.dom().contains(name) && m[name]
}

/// Whether the named tokens have their numbers as the file says, where `m` holds the names
/// that it declares: all are below the one that is given out next, and those that the file
/// does not give are all different.
pub open spec fn well_numbered(g: GrammarView, m: Map<Seq<char>, bool>) -> bool {
    &&& g.symbols.no_duplicates()
    &&& tokens_are_terminals(g)
    &&& g.next_token_value >= 258
    &&& forall|x: usize| #[trigger]
        is_named_token(g, x) ==> {
            &&& is_symbol(g, x)
            &&& g.tokens[x].value matches Some(v) && v < g.next_token_value
            &&& x >= 2 ==> m.dom().contains(g.symbols[x as int])
            &&& x >= 2 && !is_numbered(m, g.symbols[x as int]) ==> g.tokens[x].value->0 >= 258
        }
    &&& forall|x: usize, y: usize| #[trigger]
        is_named_token(g, x) && #[trigger] is_named_token(g, y) && x != y && !is_numbered(
            m,
            g.symbols[x as int],
        ) && !is_numbered(m, g.symbols[y as int]) ==> g.tokens[x].value != g.tokens[y].value
}

/// Whether `h` has no named token that `g` has not, and no other number for one.
pub open spec fn quiet(g: GrammarView, h: GrammarView) -> bool {
    &&& g.symbols.is_prefix_of(h.symbols)
    &&& g.symbols.no_duplicates() ==> h.symbols.no_duplicates()
    &&& tokens_are_terminals(g) ==> tokens_are_terminals(h)
    &&& g.next_token_value == h.next_token_value
    &&& forall|x: usize| #[trigger]
        is_named_token(h, x) ==> is_named_token(g, x) && g.tokens[x] == h.tokens[x]
}

/// Whether what has been read stays quiet.
pub open spec fn outcome_quiet(st: Progress, o: Outcome) -> bool {
    o matches Outcome::Done(end) ==> quiet(st.g, end.g)
}

proof fn lemma_quiet(g: GrammarView, h: GrammarView, m: Map<Seq<char>, bool>)
    requires
        quiet(g, h),
        well_numbered(g, m),
    ensures
        well_numbered(h, m),
{
    assert forall|x: usize| #[trigger] is_named_token(h, x) implies is_symbol(g, x)
        && h.symbols[x as int] == g.symbols[x as int] by {
        assert(is_named_token(g, x));
    }
}

proof fn lemma_quiet_trans(a: GrammarView, b: GrammarView, c: GrammarView)
    requires
        quiet(a, b),
        quiet(b, c),
    ensures
        quiet(a, c),
{
    assert forall|x: usize| #[trigger] is_named_token(c, x) implies is_named_token(a, x)
        && a.tokens[x] == c.tokens[x] by {
        assert(is_named_token(b, x));
    }
}

proof fn lemma_quiet_then(a: Progress, b: Progress, o: Outcome)
    requires
        quiet(a.g, b.g),
        outcome_quiet(b, o),
    ensures
        outcome_quiet(a, o),
{
    match o {
        Outcome::Done(end) => {
            lemma_quiet_trans(a.g, b.g, end.g);
        },
        _ => {},
    }
}

proof fn lemma_intern_quiet(g: GrammarView, name: Seq<char>)
    ensures
        quiet(g, intern(g, name).0),
{
    let h = intern(g, name).0;
    assert forall|x: usize| #[trigger] is_named_token(h, x) implies is_named_token(g, x)
        && g.tokens[x] == h.tokens[x] by {}
}

proof fn lemma_literal_quiet(
    g: GrammarView,
    sym: usize,
    lit: Seq<char>,
    tag: Option<Seq<char>>,
    assoc: Assoc,
    prec: i32,
)
    ensures
        quiet(g, with_literal(g, sym, lit, tag, assoc, prec)),
{
    let h = with_literal(g, sym, lit, tag, assoc, prec);
    assert forall|x: usize| #[trigger] is_named_token(h, x) implies is_named_token(g, x)
        && g.tokens[x] == h.tokens[x] by {
        assert(x != sym);
    }
}

/// A name that is declared keeps the tokens well numbered.
proof fn lemma_named_well(
    g0: GrammarView,
    name: Seq<char>,
    v: i32,
    tag: Option<Seq<char>>,
    assoc: Assoc,
    prec: i32,
    m: Map<Seq<char>, bool>,
    given: bool,
)
    requires
        intern(g0, name).0.symbols.len() <= usize::MAX,
        next_after(g0.next_token_value, v) <= i32::MAX,
        well_numbered(g0, m),
        !given ==> v == g0.next_token_value,
    ensures
        well_numbered(
            with_named(intern(g0, name).0, intern(g0, name).1, name, v, tag, assoc, prec),
            m.insert(name, given),
        ),
{
    let (g, id) = intern(g0, name);
    let h = with_named(g, id, name, v, tag, assoc, prec);
    let k = m.insert(name, given);
    lemma_number_set(g0, name, h, h.tokens[id]);
    if g0.symbols.contains(name) {
        let i = g0.symbols.index_of(name);
        assert(g0.symbols[i] == name);
    }
    assert(h.symbols[id as int] == name);
    assert(is_named_token(h, id));
    assert forall|x: usize| #[trigger] is_named_token(h, x) && x != id implies is_named_token(g0, x)
        && h.symbols[x as int] == g0.symbols[x as int] && h.symbols[x as int] != name && h.tokens[x]
        == g0.tokens[x] && is_symbol(h, x) by {
        assert(is_named_token(g0, x));
        assert(h.symbols[x as int] == g0.symbols[x as int]);
    }
    assert forall|x: usize| #[trigger] is_named_token(h, x) implies {
        &&& is_symbol(h, x)
        &&& h.tokens[x].value matches Some(w) && w < h.next_token_value
        &&& x >= 2 ==> k.dom().contains(h.symbols[x as int])
        &&& x >= 2 && !is_numbered(k, h.symbols[x as int]) ==> h.tokens[x].value->0 >= 258
    } by {
        if x != id {
            assert(is_named_token(g0, x));
        }
    }
    assert forall|x: usize, y: usize| #[trigger]
        is_named_token(h, x) && #[trigger] is_named_token(h, y) && x != y && !is_numbered(
            k,
            h.symbols[x as int],
        ) && !is_numbered(k, h.symbols[y as int]) implies h.tokens[x].value != h.tokens[y].value by {
        if x != id {
            assert(is_named_token(g0, x));
        }
        if y != id {
            assert(is_named_token(g0, y));
        }
    }
}

/// A list of tokens keeps the tokens well numbered.
proof fn lemma_list_well(
    s: Seq<char>,
    st: Progress,
    tag: Option<Seq<char>>,
    assoc: Assoc,
    prec: i32,
    m: Map<Seq<char>, bool>,
)
    requires
        well_numbered(st.g, m),
    ensures
        token_list(s, st, tag, assoc, prec) matches Outcome::Done(end) ==> end.g.symbols.len()
            <= usize::MAX ==> well_numbered(end.g, mentions(s, st.pos, m)),
    decreases s.len() - st.pos,
{
    let p = skip(s, st.pos);
    if !(st.pos < 0 || st.pos > s.len() || p >= s.len()) {
        lemma_skip(s, st.pos);
        lemma_ident_end(s, p);
        lemma_literal_end(s, p, '\'');
        let e = ident_end(s, p);
        lemma_skip(s, e);
        lemma_number_end(s, skip(s, e));
        if is_ident_start(s[p]) {
            let name = s.subrange(p, e);
            let (g, id) = intern(st.g, name);
            let v = token_number(s, e, g);
            let next = now(st, token_number_end(s, e), with_named(g, id, name, v, tag, assoc, prec));
            lemma_token_list_grows(s, next, tag, assoc, prec);
            if next_after(g.next_token_value, v) <= i32::MAX && g.symbols.len() <= usize::MAX {
                let given = at_number(s, skip(s, e));
                lemma_named_well(st.g, name, v, tag, assoc, prec, m, given);
                lemma_list_well(s, next, tag, assoc, prec, m.insert(name, given));
            }
        } else if s[p] == '\'' {
            let f = literal_end(s, p, '\'');
            let lit = s.subrange(p, f);
            let (g, id) = intern(st.g, lit);
            let h = with_literal(g, id, lit, tag, assoc, prec);
            lemma_intern_quiet(st.g, lit);
            lemma_literal_quiet(g, id, lit, tag, assoc, prec);
            lemma_quiet_trans(st.g, g, h);
            lemma_quiet(st.g, h, m);
            lemma_list_well(s, now(st, f, h), tag, assoc, prec, m);
        }
    }
}

proof fn lemma_type_list_quiet(s: Seq<char>, st: Progress, tag: Seq<char>)
    ensures
        quiet(st.g, type_list(s, st, tag).g),
    decreases s.len() - st.pos,
{
    let p = skip(s, st.pos);
    if !(st.pos < 0 || st.pos > s.len() || p >= s.len()) {
        lemma_skip(s, st.pos);
        lemma_ident_end(s, p);
        lemma_literal_end(s, p, '\'');
        if is_ident_start(s[p]) || s[p] == '\'' {
            let e = if s[p] == '\'' {
                literal_end(s, p, '\'')
            } else {
                ident_end(s, p)
            };
            let (g, id) = intern(st.g, s.subrange(p, e));
            lemma_intern_quiet(st.g, s.subrange(p, e));
            let next = now(st, e, with_tag(g, id, tag));
            assert(quiet(g, next.g));
            lemma_quiet_trans(st.g, g, next.g);
            lemma_type_list_quiet(s, next, tag);
            lemma_quiet_trans(st.g, next.g, type_list(s, next, tag).g);
        }
    }
}

/// A directive keeps the tokens well numbered.
proof fn lemma_directive_well(s: Seq<char>, st: Progress, m: Map<Seq<char>, bool>)
    requires
        well_numbered(st.g, m),
    ensures
        directive(s, st) matches Outcome::Done(end) ==> end.g.symbols.len() <= usize::MAX
            ==> well_numbered(end.g, directive_mentions(s, st.pos, m)),
{
    let e = ident_end(s, st.pos);
    let word = s.subrange(st.pos, e);
    let st1 = moved_to(st, e);
    let q = tag_end(s, e);
    let tag = tag_at(s, e);
    lemma_list_well(s, moved_to(st1, q), tag, Assoc::Unset, 0, m);
    let g1 = GrammarView { next_prec: (st.g.next_prec + 1) as i32, ..st.g };
    assert(quiet(st.g, g1)) by {
        assert forall|x: usize| #[trigger] is_named_token(g1, x) implies is_named_token(st.g, x)
            && st.g.tokens[x] == g1.tokens[x] by {}
    }
    lemma_quiet(st.g, g1, m);
    let raised = now(st1, e, g1);
    lemma_list_well(s, moved_to(raised, q), tag, Assoc::Left, st.g.next_prec, m);
    lemma_list_well(s, moved_to(raised, q), tag, Assoc::Right, st.g.next_prec, m);
    lemma_list_well(s, moved_to(raised, q), tag, Assoc::NonAssoc, st.g.next_prec, m);
    if !(word == "token"@ || word == "left"@ || word == "right"@ || word == "nonassoc"@) {
        match directive(s, st) {
            Outcome::Done(end) => {
                assert(quiet(st.g, end.g)) by {
                    match tag {
                        Some(t) => {
                            lemma_type_list_quiet(s, moved_to(st1, q), t);
                        },
                        None => {},
                    }
                    let b = skip(s, e);
                    lemma_intern_quiet(st.g, s.subrange(b, ident_end(s, b)));
                    assert forall|x: usize| #[trigger] is_named_token(end.g, x) implies is_named_token(
                        st.g,
                        x,
                    ) && st.g.tokens[x] == end.g.tokens[x] by {
                        let u = intern(st.g, s.subrange(b, ident_end(s, b))).0;
                        assert(is_named_token(u, x) ==> is_named_token(st.g, x));
                    }
                }
                lemma_quiet(st.g, end.g, m);
            },
            _ => {},
        }
    }
}

/// Declarations keep the tokens well numbered.
proof fn lemma_declarations_well(s: Seq<char>, st: Progress, m: Map<Seq<char>, bool>)
    requires
        well_numbered(st.g, m),
    ensures
        declarations(s, st) matches Outcome::Done(end) ==> end.g.symbols.len() <= usize::MAX
            ==> well_numbered(end.g, declared(s, st, m)),
    decreases s.len() - st.pos,
{
    let p = skip(s, st.pos);
    if !(st.pos < 0 || st.pos > s.len() || p >= s.len()) && !at(s, p, '%', '%') {
        lemma_skip(s, st.pos);
        if at(s, p, '%', '{') {
            lemma_find2(s, p + 2, '%', '}');
            let e = find2(s, p + 2, '%', '}');
            let g = GrammarView {
                prologue: (st.g.prologue + s.subrange(p + 2, e)).push('\n'),
                ..st.g
            };
            assert(quiet(st.g, g)) by {
                assert forall|x: usize| #[trigger] is_named_token(g, x) implies is_named_token(
                    st.g,
                    x,
                ) && st.g.tokens[x] == g.tokens[x] by {}
            }
            lemma_quiet(st.g, g, m);
            lemma_declarations_well(s, now(st, past(s, e, 2), g), m);
        } else if s[p] == '%' {
            let here = moved_to(st, p + 1);
            lemma_directive(s, here);
            lemma_directive_well(s, here, m);
            match directive(s, here) {
                Outcome::Done(next) => {
                    law_declarations_grow(s, next);
                    if next.g.symbols.len() <= usize::MAX {
                        lemma_declarations_well(s, next, directive_mentions(s, p + 1, m));
                    }
                },
                _ => {},
            }
        } else {
            lemma_find(s, p + 1, '\n');
            lemma_declarations_well(s, moved_to(st, find(s, p, '\n')), m);
        }
    }
}

proof fn lemma_alternative_rest_quiet(s: Seq<char>, st: Progress, alt: RuleView)
    ensures
        outcome_quiet(st, alternative_rest(s, st, alt)),
    decreases s.len() - st.pos,
{
    let p = skip(s, st.pos);
    if !(st.pos < 0 || st.pos > s.len() || p >= s.len() || s[p] == ';' || s[p] == '|') {
        lemma_skip(s, st.pos);
        lemma_literal_end(s, p, '\'');
        lemma_ident_end(s, p);
        if s[p] == '{' {
            lemma_braced_end(s, p + 1);
            lemma_skip(s, braced_end(s, p + 1));
            let code = braced_code(s, p + 1);
            let q = skip(s, braced_end(s, p + 1));
            if !alternative_ends(s, q) {
                let (g, id) = with_mid_rule(st.g, code, alt.action_line);
                let h = intern(st.g, mid_name(st.g.rules.len())).0;
                lemma_intern_quiet(st.g, mid_name(st.g.rules.len()));
                assert(quiet(h, g)) by {
                    assert forall|x: usize| #[trigger] is_named_token(g, x) implies is_named_token(
                        h,
                        x,
                    ) && h.tokens[x] == g.tokens[x] by {}
                }
                lemma_quiet_trans(st.g, h, g);
                let next = now(st, q, g);
                let more = RuleView { rhs: alt.rhs.push(id), action: Seq::empty(), ..alt };
                lemma_alternative_rest_quiet(s, next, more);
                lemma_quiet_then(st, next, alternative_rest(s, next, more));
            }
        } else if s[p] == '%' {
            if at_prec(s, p) {
                lemma_ident_end(s, p + 1);
                lemma_skip(s, ident_end(s, p + 1));
                lemma_symbol_end(s, skip(s, ident_end(s, p + 1)));
                let q = skip(s, ident_end(s, p + 1));
                let e = symbol_end(s, q);
                let (g, id) = intern(st.g, s.subrange(q, e));
                lemma_intern_quiet(st.g, s.subrange(q, e));
                let next = now(st, e, g);
                let more = RuleView { prec_sym: Some(id), ..alt };
                lemma_alternative_rest_quiet(s, next, more);
                lemma_quiet_then(st, next, alternative_rest(s, next, more));
            }
        } else if s[p] == '\'' {
            let e = literal_end(s, p, '\'');
            let lit = s.subrange(p, e);
            let (g, id) = intern(st.g, lit);
            lemma_intern_quiet(st.g, lit);
            let more = RuleView { rhs: alt.rhs.push(id), ..alt };
            let h = with_literal(g, id, lit, None, Assoc::Unset, 0);
            lemma_literal_quiet(g, id, lit, None, Assoc::Unset, 0);
            lemma_quiet_trans(st.g, g, h);
            let next = if g.terminals.contains(id) || g.nonterminals.contains(id) {
                now(st, e, g)
            } else {
                now(st, e, h)
            };
            lemma_alternative_rest_quiet(s, next, more);
            lemma_quiet_then(st, next, alternative_rest(s, next, more));
        } else if is_ident_start(s[p]) {
            let e = ident_end(s, p);
            let (g, id) = intern(st.g, s.subrange(p, e));
            lemma_intern_quiet(st.g, s.subrange(p, e));
            let next = now(st, e, g);
            let more = RuleView { rhs: alt.rhs.push(id), ..alt };
            lemma_alternative_rest_quiet(s, next, more);
            lemma_quiet_then(st, next, alternative_rest(s, next, more));
        }
    }
}

proof fn lemma_alternatives_quiet(s: Seq<char>, st: Progress, lhs: usize)
    ensures
        outcome_quiet(st, alternatives(s, st, lhs)),
    decreases s.len() - st.pos,
{
    if !(st.pos < 0 || st.pos > s.len()) {
        let alt = RuleView {
            lhs,
            rhs: Seq::empty(),
            action: Seq::empty(),
            action_line: line_of(s, st.pos) as usize,
            prec_sym: None,
            rule_number: 0,
        };
        lemma_alternative_rest_quiet(s, st, alt);
        match alternative(s, st, lhs) {
            Outcome::Done(st1) => {
                lemma_alternative(s, st, lhs);
                lemma_skip(s, st1.pos);
                let p = skip(s, st1.pos);
                if at1(s, p, '|') {
                    let next = moved_to(st1, p + 1);
                    lemma_alternatives_quiet(s, next, lhs);
                    lemma_quiet_then(st, next, alternatives(s, next, lhs));
                }
            },
            _ => {},
        }
    }
}

proof fn lemma_rules_quiet(s: Seq<char>, st: Progress)
    ensures
        outcome_quiet(st, rules(s, st)),
    decreases s.len() - st.pos,
{
    let p = skip(s, st.pos);
    if !(st.pos < 0 || st.pos > s.len() || p >= s.len()) && !at(s, p, '%', '%') {
        lemma_skip(s, st.pos);
        let here = moved_to(st, p);
        lemma_rule(s, here);
        let f = skip(s, p);
        let e = ident_end(s, f);
        let name = s.subrange(f, e);
        let (g, lhs) = intern(st.g, name);
        lemma_intern_quiet(st.g, name);
        let h = with_lhs(g, lhs);
        assert(quiet(g, h)) by {
            assert forall|x: usize| #[trigger] is_named_token(h, x) implies is_named_token(g, x)
                && g.tokens[x] == h.tokens[x] by {}
        }
        lemma_quiet_trans(st.g, g, h);
        let begin = now(here, skip(s, e) + 1, h);
        lemma_alternatives_quiet(s, begin, lhs);
        lemma_quiet_then(st, begin, alternatives(s, begin, lhs));
        match rule(s, here) {
            Outcome::Done(next) => {
                lemma_rules_quiet(s, next);
                lemma_quiet_then(st, next, rules(s, next));
            },
            _ => {},
        }
    }
}

/// Whether the named tokens of `h` that `g` has not have numbers of their own, from the one
/// that was next on, and each number that was given out is one of theirs.
pub open spec fn newly_numbered(g: GrammarView, h: GrammarView) -> bool {
    &&& h.symbols == g.symbols
    &&& g.next_token_value <= h.next_token_value
    &&& forall|x: usize| #[trigger]
        is_named_token(h, x) ==> {
            &&& h.tokens[x].value matches Some(v) && v < h.next_token_value
            &&& !is_named_token(g, x) ==> h.tokens[x].value->0 >= g.next_token_value
        }
    &&& forall|x: usize| #[trigger]
        g.tokens.dom().contains(x) ==> h.tokens.dom().contains(x) && h.tokens[x] == g.tokens[x]
    &&& forall|x: usize| #[trigger]
        h.tokens.dom().contains(x) && !g.tokens.dom().contains(x) ==> {
            let t = h.tokens[x];
            &&& t.name == g.symbols[x as int]
            &&& !t.is_literal
            &&& t.tag is None && t.prec == 0 && t.assoc == Assoc::Unset
            &&& h.terminals.contains(x)
        }
    &&& forall|x: usize, y: usize| #[trigger]
        is_named_token(h, x) && #[trigger] is_named_token(h, y) && x != y && !is_named_token(g, x)
            ==> h.tokens[x].value != h.tokens[y].value
    &&& forall|v: i32|
        g.next_token_value <= v < h.next_token_value ==> #[trigger] is_new_number(g, h, v)
}

/// Whether the number is that of a named token which `g` has not.
pub open spec fn is_new_number(g: GrammarView, h: GrammarView, v: i32) -> bool {
    exists|x: usize| #[trigger]
        is_named_token(h, x) && !is_named_token(g, x) && h.tokens[x].value == Some(v)
}

/// The symbols that are used and that nothing declares become tokens, each with a number
/// of its own: the numbers that are given out next, with none left out.
pub proof fn law_used_numbers(g: GrammarView, syms: Seq<usize>)
    requires
        tokens_are_terminals(g),
        numbers_below(g),
    ensures
        classified(g, syms) matches Some(h) ==> newly_numbered(g, h) && forall|i: int|
            0 <= i < syms.len() ==> !unclassified(h, #[trigger] syms[i]),
    decreases syms.len(),
{
    assert forall|x: usize| #[trigger] is_named_token(g, x) implies (g.tokens[x].value matches Some(
        v,
    ) && v < g.next_token_value) by {
        assert(g.tokens.dom().contains(x));
    }
    if syms.len() > 0 {
        let before = syms.drop_last();
        law_used_numbers(g, before);
        match classified(g, before) {
            None => {},
            Some(b) => {
                let sym = syms.last();
                let v = b.next_token_value;
                lemma_classified_tokens(g, before);
                match classified(g, syms) {
                    None => {},
                    Some(h) => {
                        if unclassified(b, sym) {
                            assert(!is_named_token(b, sym));
                            assert(!is_named_token(g, sym));
                            assert(is_named_token(h, sym));
                            assert(h.tokens[sym].value == Some(v));
                            assert forall|x: usize| is_named_token(h, x) && x != sym implies #[trigger]
                                is_named_token(b, x) && h.tokens[x] == b.tokens[x] by {}
                            assert(!b.tokens.dom().contains(sym));
                            assert forall|x: usize| #[trigger] g.tokens.dom().contains(x) implies h.tokens.dom().contains(
                            x) && h.tokens[x] == g.tokens[x] by {
                                assert(b.tokens.dom().contains(x));
                            }
                            assert forall|x: usize| #[trigger]
                                h.tokens.dom().contains(x) && !g.tokens.dom().contains(x) implies {
                                let t = h.tokens[x];
                                &&& t.name == g.symbols[x as int]
                                &&& !t.is_literal
                                &&& t.tag is None && t.prec == 0 && t.assoc == Assoc::Unset
                                &&& h.terminals.contains(x)
                            } by {
                                if x != sym {
                                    assert(b.tokens.dom().contains(x));
                                }
                            }
                            assert forall|x: usize| #[trigger] is_named_token(h, x) implies {
                                &&& h.tokens[x].value matches Some(w) && w < h.next_token_value
                                &&& !is_named_token(g, x) ==> h.tokens[x].value->0
                                    >= g.next_token_value
                            } by {
                                if x != sym {
                                    assert(is_named_token(b, x));
                                }
                            }
                            assert forall|x: usize, y: usize| #[trigger]
                                is_named_token(h, x) && #[trigger] is_named_token(h, y) && x != y
                                    && !is_named_token(g, x) implies h.tokens[x].value
                                != h.tokens[y].value by {
                                if x != sym {
                                    assert(is_named_token(b, x));
                                }
                                if y != sym {
                                    assert(is_named_token(b, y));
                                }
                            }
                            assert forall|w: i32|
                                g.next_token_value <= w
                                    < h.next_token_value implies #[trigger] is_new_number(g, h, w) by {
                                if w < v {
                                    assert(is_new_number(g, b, w));
                                    let x = choose|x: usize| #[trigger]
                                        is_named_token(b, x) && !is_named_token(g, x)
                                            && b.tokens[x].value == Some(w);
                                    assert(is_named_token(h, x));
                                }
                            }
                        }
                        assert forall|i: int| 0 <= i < syms.len() implies !unclassified(
                            h,
                            #[trigger] syms[i],
                        ) by {
                            if i < before.len() {
                                assert(!unclassified(b, before[i]));
                            }
                        }
                    },
                }
            },
        }
    } else {
        assert forall|v: i32|
            g.next_token_value <= v < g.next_token_value implies #[trigger] is_new_number(g, g, v) by {}
    }
}

proof fn lemma_classified_tokens(g: GrammarView, syms: Seq<usize>)
    requires
        tokens_are_terminals(g),
    ensures
        classified(g, syms) matches Some(h) ==> tokens_are_terminals(h),
    decreases syms.len(),
{
    if syms.len() > 0 {
        lemma_classified_tokens(g, syms.drop_last());
    }
}

/// A symbol becomes a named token only where it is used.
proof fn lemma_new_is_used(g: GrammarView, syms: Seq<usize>, y: usize)
    requires
        classified(g, syms) matches Some(h) && is_named_token(h, y),
        !is_named_token(g, y),
    ensures
        syms.contains(y),
    decreases syms.len(),
{
    if syms.len() > 0 {
        let before = syms.drop_last();
        let b = classified(g, before)->0;
        if y == syms.last() {
            assert(syms[syms.len() - 1] == y);
        } else {
            assert(is_named_token(b, y));
            lemma_new_is_used(g, before, y);
            let k = choose|k: int| 0 <= k < before.len() && before[k] == y;
            assert(syms[k] == y);
        }
    }
}

/// Of two symbols that become tokens by being used, the one that is used first has the
/// lower number.
pub proof fn law_used_order(g: GrammarView, syms: Seq<usize>, i: int, j: int)
    requires
        tokens_are_terminals(g),
        numbers_below(g),
        0 <= i < j < syms.len(),
        forall|k: int| 0 <= k <= i ==> #[trigger] syms[k] != syms[j],
        !is_named_token(g, syms[i]),
        !is_named_token(g, syms[j]),
    ensures
        classified(g, syms) matches Some(h) ==> is_named_token(h, syms[i]) ==> is_named_token(
            h,
            syms[j],
        ) ==> h.tokens[syms[i]].value->0 < h.tokens[syms[j]].value->0,
    decreases syms.len(),
{
    let before = syms.drop_last();
    let y = syms[j];
    let x = syms[i];
    law_used_numbers(g, before);
    lemma_classified_tokens(g, before);
    match classified(g, syms) {
        None => {},
        Some(h) => {
            let b = classified(g, before)->0;
            let last = syms.last();
            assert(before[i] == x);
            assert(!unclassified(b, before[i]));
            if is_named_token(h, x) && is_named_token(h, y) {
                assert(x != last || !unclassified(b, last));
                assert(is_named_token(b, x) && h.tokens[x] == b.tokens[x]);
                if is_named_token(b, y) {
                    assert(y != last || !unclassified(b, last));
                    assert(h.tokens[y] == b.tokens[y]);
                    lemma_new_is_used(g, before, y);
                    let k = choose|k: int| 0 <= k < before.len() && before[k] == y;
                    assert(syms[k] == y);
                    assert(k > i);
                    assert forall|l: int| 0 <= l <= i implies #[trigger] before[l] != before[k] by {
                        assert(before[l] == syms[l]);
                    }
                    law_used_order(g, before, i, k);
                } else {
                    assert(y == last && unclassified(b, last));
                }
            }
        },
    }
}

/// What has been read where a file begins.
pub open spec fn file_begin() -> Progress {
    Progress { pos: 0, g: empty_grammar(), warnings: Seq::empty() }
}

/// The names that the file declares as tokens, each with whether the file gives it a number
/// where it stands last.
pub open spec fn declared_names(s: Seq<char>) -> Map<Seq<char>, bool> {
    declared(s, file_begin(), Map::empty())
}

/// In a grammar that has been read, all named tokens have numbers. Any two of them to which
/// the file gives none have different ones, whether they are declared or only used in rules;
/// and one that is only used in rules has a number that no other named token has.
pub proof fn law_file_numbers(s: Seq<char>)
    ensures
        grammar_file(s, file_begin()) matches Outcome::Done(end) ==> end.g.symbols.len()
            <= usize::MAX ==> {
            let m = declared_names(s);
            let g = end.g;
            &&& forall|x: usize| #[trigger]
                is_named_token(g, x) ==> (g.tokens[x].value matches Some(v) && v
                    < g.next_token_value)
            &&& forall|x: usize, y: usize| #[trigger]
                is_named_token(g, x) && #[trigger] is_named_token(g, y) && x != y && !is_numbered(
                    m,
                    g.symbols[x as int],
                ) && !is_numbered(m, g.symbols[y as int]) ==> g.tokens[x].value != g.tokens[y].value
            &&& forall|x: usize, y: usize| #[trigger]
                is_named_token(g, x) && #[trigger] is_named_token(g, y) && x != y && x >= 2
                    && !m.dom().contains(g.symbols[x as int]) ==> g.tokens[x].value
                    != g.tokens[y].value
        },
{
    let st = file_begin();
    let m = declared_names(s);
    assert(well_numbered(st.g, Map::empty())) by {
        reveal_strlit("$end");
        reveal_strlit("error");
        assert("$end"@[0] != "error"@[0]);
        assert forall|x: usize| #[trigger] is_named_token(st.g, x) implies x == 0 || x == 1 by {}
    }
    lemma_declarations_well(s, st, Map::empty());
    match declarations(s, st) {
        Outcome::Done(st1) => {
            match separator(s, st1) {
                Outcome::Done(st2) => {
                    lemma_rules_quiet(s, st2);
                    law_rules_grow(s, st2);
                    match rules(s, st2) {
                        Outcome::Done(st3) => {
                            let g = epilogue(s, st3).g;
                            let syms = used_symbols(g.rules);
                            match classified(g, syms) {
                                Some(h) => {
                                    lemma_classified_symbols(g, syms);
                                    match completed(epilogue(s, st3)) {
                                        Outcome::Done(end) => {
                                            if end.g.symbols.len() <= usize::MAX {
                                                let a = augmented(h, h.start->0);
                                                assert(end.g == a);
                                                lemma_quiet(st2.g, st3.g, m);
                                                assert(quiet(st3.g, g)) by {
                                                    assert forall|x: usize| #[trigger]
                                                        is_named_token(g, x) implies is_named_token(
                                                        st3.g,
                                                        x,
                                                    ) && st3.g.tokens[x] == g.tokens[x] by {}
                                                }
                                                lemma_quiet(st3.g, g, m);
                                                lemma_file_end(g, syms, m);
                                            }
                                        },
                                        _ => {},
                                    }
                                },
                                None => {},
                            }
                        },
                        _ => {},
                    }
                },
                _ => {},
            }
        },
        _ => {},
    }
}

proof fn lemma_classified_symbols(g: GrammarView, syms: Seq<usize>)
    ensures
        classified(g, syms) matches Some(h) ==> h.symbols == g.symbols,
    decreases syms.len(),
{
    if syms.len() > 0 {
        lemma_classified_symbols(g, syms.drop_last());
    }
}

/// What makes a grammar complete gives the tokens that are only used their numbers.
proof fn lemma_file_end(g: GrammarView, syms: Seq<usize>, m: Map<Seq<char>, bool>)
    requires
        well_numbered(g, m),
        classified(g, syms) is Some,
        (classified(g, syms)->0).start is Some,
    ensures
        ({
            let h = classified(g, syms)->0;
            let a = augmented(h, h.start->0);
            &&& forall|x: usize| #[trigger]
                is_named_token(a, x) ==> (a.tokens[x].value matches Some(v) && v
                    < a.next_token_value)
            &&& forall|x: usize, y: usize| #[trigger]
                is_named_token(a, x) && #[trigger] is_named_token(a, y) && x != y && !is_numbered(
                    m,
                    a.symbols[x as int],
                ) && !is_numbered(m, a.symbols[y as int]) ==> a.tokens[x].value != a.tokens[y].value
            &&& forall|x: usize, y: usize| #[trigger]
                is_named_token(a, x) && #[trigger] is_named_token(a, y) && x != y && x >= 2
                    && !m.dom().contains(a.symbols[x as int]) ==> a.tokens[x].value
                    != a.tokens[y].value
        }),
{
    let h = classified(g, syms)->0;
    let a = augmented(h, h.start->0);
    assert(numbers_below(g)) by {
        assert forall|x: usize| #[trigger]
            g.tokens.dom().contains(x) && !g.tokens[x].is_literal implies (
        g.tokens[x].value matches Some(v) && v < g.next_token_value) by {
            assert(is_named_token(g, x));
        }
    }
    law_used_numbers(g, syms);
    assert(a.tokens == h.tokens && a.next_token_value == h.next_token_value);
    assert(h.symbols.is_prefix_of(a.symbols));
    assert forall|x: usize| #[trigger] is_named_token(a, x) implies is_named_token(h, x) by {}
    assert forall|x: usize| #[trigger] is_named_token(g, x) implies a.symbols[x as int]
        == g.symbols[x as int] by {
        assert(is_symbol(g, x));
    }
    assert forall|x: usize, y: usize| #[trigger]
        is_named_token(a, x) && #[trigger] is_named_token(a, y) && x != y && !is_numbered(
            m,
            a.symbols[x as int],
        ) && !is_numbered(m, a.symbols[y as int]) implies a.tokens[x].value != a.tokens[y].value by {
        assert(is_named_token(h, x) && is_named_token(h, y));
        if is_named_token(g, x) && is_named_token(g, y) {
            assert(g.tokens[x].value != g.tokens[y].value);
        }
    }
    assert forall|x: usize, y: usize| #[trigger]
        is_named_token(a, x) && #[trigger] is_named_token(a, y) && x != y && x >= 2
            && !m.dom().contains(a.symbols[x as int]) implies a.tokens[x].value
        != a.tokens[y].value by {
        assert(is_named_token(h, x) && is_named_token(h, y));
        if is_named_token(g, x) {
            assert(m.dom().contains(g.symbols[x as int]));
        }
    }
}

} // verus!
