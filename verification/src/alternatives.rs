//! What becomes of the parts of an alternative: symbols, blocks of code and precedence.

use crate::grammar::{intern, with_rule, Assoc, GrammarView, RuleView};
use crate::growth::{grows, lemma_alternative_rest_grows};
use crate::lexer::{
    blanks_end, braced_code, braced_end, ident_end, lemma_braced_end, lemma_ident_end,
    lemma_literal_end, lemma_skip, line_of, literal_end, rule_ahead, skip,
};
use crate::syntax::{
    alternative, alternative_ends, alternative_rest, at_prec, finished, has_inside,
    lemma_symbol_end, literal_code, mid_name, now, symbol_end, with_literal, with_mid_rule, Outcome,
    Progress,
};
use crate::text::{dec, is_blank, is_ident, is_ident_start};
use crate::words::{law_blanks, law_ident};
use vstd::prelude::*;

verus! {

/// What a part of an alternative is.
pub enum Kind {
    /// A name or a literal.
    Symbol,
    /// A block of code in braces.
    Block,
    /// The word `%prec` with a symbol behind it.
    Prec,
}

/// A part of an alternative, with the place where it stands in the text.
pub struct Part {
    pub kind: Kind,
    pub from: int,
    pub to: int,
}

/// Where the symbol begins that stands behind the word `%prec` at `p`.
pub open spec fn prec_name_begin(s: Seq<char>, p: int) -> int {
    skip(s, ident_end(s, p + 1))
}

/// Whether the part stands in the text where it says.
pub open spec fn is_part(s: Seq<char>, x: Part) -> bool {
    &&& 0 <= x.from < x.to <= s.len()
    &&& match x.kind {
        Kind::Symbol => if s[x.from] == '\'' {
            x.to == literal_end(s, x.from, '\'') && has_inside(s.subrange(x.from, x.to))
        } else {
            is_ident_start(s[x.from]) && x.to == ident_end(s, x.from)
        },
        Kind::Block => s[x.from] == '{' && x.to == braced_end(s, x.from + 1),
        Kind::Prec => at_prec(s, x.from) && s[x.from] == '%' && x.to == symbol_end(
            s,
            prec_name_begin(s, x.from),
        ),
    }
}

/// The name of the symbol that the part is, or that it names.
pub open spec fn part_name(s: Seq<char>, x: Part) -> Seq<char> {
    match x.kind {
        Kind::Prec => s.subrange(prec_name_begin(s, x.from), x.to),
        _ => s.subrange(x.from, x.to),
    }
}

/// Whether part number `i` stands in the text, behind the part before it.
pub open spec fn is_next_part(s: Seq<char>, p: int, ps: Seq<Part>, i: int) -> bool {
    is_part(s, ps[i]) && ps[i].from == skip(s, end_before(p, ps, i))
}

/// Whether the text from `p` on is made of the parts, one behind the other with nothing but
/// white space and comments between them, and `e` is where the next thing stands.
pub open spec fn made_of(s: Seq<char>, p: int, ps: Seq<Part>, e: int) -> bool {
    &&& forall|i: int| 0 <= i < ps.len() ==> #[trigger] is_next_part(s, p, ps, i)
    &&& e == skip(s, end_before(p, ps, ps.len() as int))
}

/// Where the part before number `i` ends; where the text begins, if there is none.
pub open spec fn end_before(p: int, ps: Seq<Part>, i: int) -> int {
    if i <= 0 {
        p
    } else {
        ps[i - 1].to
    }
}

/// Whether a name stands at `p` with a colon behind it, as where a rule begins.
pub open spec fn names_rule(s: Seq<char>, p: int) -> bool {
    0 <= p < s.len() && is_ident_start(s[p]) && exists|a: int, c: int| #[trigger]
        is_name_with_colon(s, p, a, c)
}

/// Whether a name stands from `p` up to `a`, and behind it nothing but blanks up to a colon
/// at `c`.
pub open spec fn is_name_with_colon(s: Seq<char>, p: int, a: int, c: int) -> bool {
    &&& p <= a <= c < s.len()
    &&& forall|k: int| p <= k < a ==> is_ident(#[trigger] s[k])
    &&& forall|k: int| a <= k < c ==> is_blank(#[trigger] s[k])
    &&& s[c] == ':'
}

/// Whether an alternative ends at `e`, behind a block.
pub open spec fn ends_behind_block(s: Seq<char>, e: int) -> bool {
    e >= s.len() || s[e] == ';' || s[e] == '|' || s[e] == '%' || names_rule(s, e)
}

/// Whether the last part is a block.
pub open spec fn ends_in_block(ps: Seq<Part>) -> bool {
    ps.len() > 0 && ps.last().kind is Block
}

/// Whether the parts are a whole alternative that ends at `e`: it ends with what may stand
/// behind an alternative, and not before.
pub open spec fn is_whole(s: Seq<char>, ps: Seq<Part>, e: int) -> bool {
    &&& if ends_in_block(ps) {
        ends_behind_block(s, e)
    } else {
        e >= s.len() || s[e] == ';' || s[e] == '|' || (s[e] == '%' && !at_prec(s, e))
    }
    &&& forall|i: int|
        0 <= i < ps.len() - 1 && (#[trigger] ps[i]).kind is Block ==> !ends_behind_block(
            s,
            skip(s, ps[i].to),
        )
}

/// How many of the first `i` parts have a place on the right-hand side: the symbols and the
/// blocks.
pub open spec fn places(ps: Seq<Part>, i: int) -> nat
    decreases i,
{
    if i <= 0 {
        0
    } else {
        places(ps, i - 1) + if ps[i - 1].kind is Prec {
            0nat
        } else {
            1
        }
    }
}

/// How many of the first `i` parts are blocks.
pub open spec fn blocks(ps: Seq<Part>, i: int) -> nat
    decreases i,
{
    if i <= 0 {
        0
    } else {
        blocks(ps, i - 1) + if ps[i - 1].kind is Block {
            1nat
        } else {
            0
        }
    }
}

/// Whether the symbol of the grammar has the name.
pub open spec fn is_called(g: GrammarView, x: usize, name: Seq<char>) -> bool {
    x < g.symbols.len() && g.symbols[x as int] == name
}

/// Whether part number `i` is in the grammar as it is to be, where `n` rules were there
/// before: a symbol stands at its place on the right-hand side; a block is the action of a
/// rule of its own that derives nothing from a symbol of its own, which stands at the place
/// of the block.
pub open spec fn is_placed(
    s: Seq<char>,
    g: GrammarView,
    n: nat,
    r: RuleView,
    ps: Seq<Part>,
    i: int,
) -> bool {
    let place = places(ps, i) as int;
    match ps[i].kind {
        Kind::Symbol => {
            &&& place < r.rhs.len()
            &&& is_called(g, r.rhs[place], part_name(s, ps[i]))
            &&& s[ps[i].from] == '\'' ==> g.terminals.contains(r.rhs[place])
                || g.nonterminals.contains(r.rhs[place])
        },
        Kind::Block => {
            let k = (n + blocks(ps, i)) as int;
            &&& place < r.rhs.len()
            &&& k < g.rules.len()
            &&& g.rules[k].lhs == r.rhs[place]
            &&& g.rules[k].rhs.len() == 0
            &&& g.rules[k].action == braced_code(s, ps[i].from + 1)
            &&& g.rules[k].prec_sym is None
            &&& is_called(g, r.rhs[place], "@"@ + dec(k as nat))
            &&& g.nonterminals.contains(r.rhs[place])
        },
        Kind::Prec => true,
    }
}

/// Whether the precedence of the rule is the one that the last of the first `m` parts with
/// a precedence names, and none where no part does.
pub open spec fn prec_as_named(
    s: Seq<char>,
    g: GrammarView,
    r: RuleView,
    ps: Seq<Part>,
    m: int,
) -> bool {
    match r.prec_sym {
        Some(p) => exists|i: int|
            0 <= i < m && (#[trigger] ps[i]).kind is Prec && is_called(g, p, part_name(s, ps[i]))
                && forall|j: int| i < j < m ==> !((#[trigger] ps[j]).kind is Prec),
        None => forall|j: int| 0 <= j < m ==> !((#[trigger] ps[j]).kind is Prec),
    }
}

/// Whether the first `i` parts are in the grammar as they are to be, and in the rule.
pub open spec fn are_placed(
    s: Seq<char>,
    g: GrammarView,
    n: nat,
    r: RuleView,
    ps: Seq<Part>,
    i: int,
) -> bool {
    &&& r.rhs.len() == places(ps, i)
    &&& forall|j: int| 0 <= j < i ==> #[trigger] is_placed(s, g, n, r, ps, j)
    &&& prec_as_named(s, g, r, ps, i)
}

/// How many of the parts have a rule of their own or a place in the rule: all but a block at
/// the end.
pub open spec fn inner(ps: Seq<Part>) -> int {
    if ends_in_block(ps) {
        ps.len() - 1
    } else {
        ps.len() as int
    }
}

/// The code of the block at the end, and none where the last part is no block.
pub open spec fn final_code(s: Seq<char>, ps: Seq<Part>) -> Seq<char> {
    if ends_in_block(ps) {
        braced_code(s, ps.last().from + 1)
    } else {
        Seq::empty()
    }
}

/// Whether the grammar `h` has just the rules that an alternative of `lhs` with the parts is
/// to add to `g`: one for each block but one at the end, and behind them the rule of the
/// alternative, whose action is the code of the block at the end.
pub open spec fn alternative_added(
    s: Seq<char>,
    g: GrammarView,
    h: GrammarView,
    lhs: usize,
    ps: Seq<Part>,
) -> bool {
    let n = g.rules.len();
    let r = h.rules.last();
    &&& h.rules.len() == n + blocks(ps, inner(ps)) + 1
    &&& g.rules.is_prefix_of(h.rules)
    &&& r.lhs == lhs
    &&& r.action == final_code(s, ps)
    &&& are_placed(s, h, n, r, ps, inner(ps))
}

proof fn lemma_rule_ahead_at(s: Seq<char>, p: int)
    requires
        0 <= p < s.len(),
        is_ident_start(s[p]),
    ensures
        rule_ahead(s, p) <==> names_rule(s, p),
{
    let e = ident_end(s, p);
    law_ident(s, p);
    law_blanks(s, e);
    let c = blanks_end(s, e);
    if rule_ahead(s, p) {
        assert(is_name_with_colon(s, p, e, c));
    }
    if names_rule(s, p) {
        let (a, b) = choose|a: int, b: int| #[trigger] is_name_with_colon(s, p, a, b);
        assert(a == e) by {
            if a < e {
                assert(is_ident(s[a]));
                if a < b {
                    assert(is_blank(s[a]));
                }
            }
            if a > e {
                assert(is_ident(s[e]));
            }
        }
        assert(b == c) by {
            if b < c {
                assert(is_blank(s[b]));
            }
            if b > c {
                assert(is_blank(s[c]));
            }
        }
    }
}

proof fn lemma_ends_behind_block(s: Seq<char>, e: int)
    requires
        0 <= e <= s.len(),
    ensures
        alternative_ends(s, e) <==> ends_behind_block(s, e),
{
    if e < s.len() && is_ident_start(s[e]) {
        lemma_rule_ahead_at(s, e);
    }
}

/// What is placed stays so when the grammar grows and the rule gets more symbols.
pub proof fn lemma_placed_stays(
    s: Seq<char>,
    g: GrammarView,
    h: GrammarView,
    n: nat,
    r: RuleView,
    q: RuleView,
    ps: Seq<Part>,
    i: int,
)
    requires
        grows(g, h),
        r.rhs.is_prefix_of(q.rhs),
        forall|j: int| 0 <= j < i ==> #[trigger] is_placed(s, g, n, r, ps, j),
    ensures
        forall|j: int| 0 <= j < i ==> #[trigger] is_placed(s, h, n, q, ps, j),
{
    assert forall|j: int| 0 <= j < i implies #[trigger] is_placed(s, h, n, q, ps, j) by {
        assert(is_placed(s, g, n, r, ps, j));
        let place = places(ps, j) as int;
        if !(ps[j].kind is Prec) {
            assert(q.rhs[place] == r.rhs[place]);
            assert(h.symbols[r.rhs[place] as int] == g.symbols[r.rhs[place] as int]);
        }
        if ps[j].kind is Block {
            let k = (n + blocks(ps, j)) as int;
            assert(h.rules[k] == g.rules[k]);
        }
    }
}

/// The precedence that is named stays so when the grammar grows.
pub proof fn lemma_prec_stays(
    s: Seq<char>,
    g: GrammarView,
    h: GrammarView,
    r: RuleView,
    q: RuleView,
    ps: Seq<Part>,
    i: int,
)
    requires
        grows(g, h),
        r.prec_sym == q.prec_sym,
        prec_as_named(s, g, r, ps, i),
        i >= 0,
    ensures
        prec_as_named(s, h, q, ps, i),
        !(ps[i].kind is Prec) ==> prec_as_named(s, h, q, ps, i + 1),
{
    match r.prec_sym {
        Some(p) => {
            let k = choose|k: int|
                0 <= k < i && (#[trigger] ps[k]).kind is Prec && is_called(
                    g,
                    p,
                    part_name(s, ps[k]),
                ) && forall|j: int| k < j < i ==> !((#[trigger] ps[j]).kind is Prec);
            assert(ps[k].kind is Prec && is_called(h, p, part_name(s, ps[k])));
        },
        None => {},
    }
}

/// A name that is interned is the name of the symbol.
pub proof fn lemma_interned(g: GrammarView, name: Seq<char>)
    requires
        intern(g, name).0.symbols.len() <= usize::MAX,
    ensures
        is_called(intern(g, name).0, intern(g, name).1, name),
        grows(g, intern(g, name).0),
{
    if g.symbols.contains(name) {
        let k = g.symbols.index_of(name);
        assert(g.symbols[k] == name);
    }
}

/// Whether the first `i` parts have been read, with `alt` for the rule so far.
#[verifier::opaque]
spec fn is_ready(
    s: Seq<char>,
    st: Progress,
    alt: RuleView,
    before: GrammarView,
    p: int,
    ps: Seq<Part>,
    i: int,
) -> bool {
    &&& 0 <= st.pos <= s.len()
    &&& skip(s, st.pos) == skip(s, end_before(p, ps, i))
    &&& grows(before, st.g)
    &&& alt.action == Seq::<char>::empty()
    &&& st.g.symbols.len() <= usize::MAX ==> are_placed(
        s,
        st.g,
        before.rules.len(),
        alt,
        ps,
        i,
    )
    &&& st.g.rules.len() == before.rules.len() + blocks(ps, i)
}

/// A block that is not at the end is read.
proof fn lemma_read_block(
    s: Seq<char>,
    st: Progress,
    alt: RuleView,
    before: GrammarView,
    p: int,
    ps: Seq<Part>,
    e: int,
    i: int,
) -> (res: (Progress, RuleView))
    requires
        is_ready(s, st, alt, before, p, ps, i),
        0 <= i < ps.len() - 1,
        made_of(s, p, ps, e),
        ps[i].kind is Block,
        !ends_behind_block(s, skip(s, ps[i].to)),
    ensures
        is_ready(s, res.0, res.1, before, p, ps, i + 1),
        res.1.lhs == alt.lhs,
        res.0.warnings == st.warnings,
        alternative_rest(s, st, alt) == alternative_rest(s, res.0, res.1),
{
    reveal(is_ready);
    assert(is_next_part(s, p, ps, i));
    let x = ps[i];
    let n = before.rules.len();
    let q = skip(s, st.pos);
    lemma_skip(s, st.pos);
    lemma_braced_end(s, q + 1);
    lemma_skip(s, x.to);
    lemma_literal_end(s, q, '\'');
    lemma_ident_end(s, q);
    let code = braced_code(s, q + 1);
    let after = skip(s, braced_end(s, q + 1));
    lemma_ends_behind_block(s, after);
    let (g, id) = with_mid_rule(st.g, code, alt.action_line);
    let next = now(st, after, g);
    let more = RuleView { rhs: alt.rhs.push(id), action: Seq::empty(), ..alt };
    let u = intern(st.g, mid_name(st.g.rules.len())).0;
    assert(grows(st.g, u));
    assert(grows(u, g));
    lemma_skip_stays(s, x.to);
    if g.symbols.len() <= usize::MAX {
        lemma_interned(st.g, mid_name(st.g.rules.len()));
        lemma_placed_stays(s, st.g, g, n, alt, more, ps, i);
        lemma_prec_stays(s, st.g, g, alt, more, ps, i);
        assert(g.rules[(n + blocks(ps, i)) as int] == g.rules.last());
        assert(is_placed(s, g, n, more, ps, i));
    }
    (next, more)
}

/// A precedence is read.
proof fn lemma_read_prec(
    s: Seq<char>,
    st: Progress,
    alt: RuleView,
    before: GrammarView,
    p: int,
    ps: Seq<Part>,
    e: int,
    i: int,
) -> (res: (Progress, RuleView))
    requires
        is_ready(s, st, alt, before, p, ps, i),
        0 <= i < ps.len(),
        made_of(s, p, ps, e),
        ps[i].kind is Prec,
    ensures
        is_ready(s, res.0, res.1, before, p, ps, i + 1),
        res.1.lhs == alt.lhs,
        res.0.warnings == st.warnings,
        alternative_rest(s, st, alt) == alternative_rest(s, res.0, res.1),
{
    reveal(is_ready);
    assert(is_next_part(s, p, ps, i));
    let x = ps[i];
    let n = before.rules.len();
    let q = skip(s, st.pos);
    lemma_skip(s, st.pos);
    lemma_literal_end(s, q, '\'');
    lemma_ident_end(s, q);
    lemma_ident_end(s, q + 1);
    lemma_skip(s, ident_end(s, q + 1));
    lemma_symbol_end(s, skip(s, ident_end(s, q + 1)));
    let name = part_name(s, x);
    let (g, id) = intern(st.g, name);
    let next = now(st, x.to, g);
    let more = RuleView { prec_sym: Some(id), ..alt };
    assert(grows(st.g, g));
    if g.symbols.len() <= usize::MAX {
        lemma_interned(st.g, name);
        lemma_placed_stays(s, st.g, g, n, alt, more, ps, i);
        assert(ps[i].kind is Prec && is_called(g, id, part_name(s, ps[i])));
        assert(is_placed(s, g, n, more, ps, i));
    }
    (next, more)
}

/// A symbol is read.
proof fn lemma_read_symbol(
    s: Seq<char>,
    st: Progress,
    alt: RuleView,
    before: GrammarView,
    p: int,
    ps: Seq<Part>,
    e: int,
    i: int,
) -> (res: (Progress, RuleView))
    requires
        is_ready(s, st, alt, before, p, ps, i),
        0 <= i < ps.len(),
        made_of(s, p, ps, e),
        ps[i].kind is Symbol,
    ensures
        is_ready(s, res.0, res.1, before, p, ps, i + 1),
        res.1.lhs == alt.lhs,
        res.0.warnings == st.warnings,
        alternative_rest(s, st, alt) == alternative_rest(s, res.0, res.1),
{
    reveal(is_ready);
    assert(is_next_part(s, p, ps, i));
    let x = ps[i];
    let n = before.rules.len();
    let q = skip(s, st.pos);
    lemma_skip(s, st.pos);
    lemma_literal_end(s, q, '\'');
    lemma_ident_end(s, q);
    let name = part_name(s, x);
    let (g, id) = intern(st.g, name);
    let more = RuleView { rhs: alt.rhs.push(id), ..alt };
    let h = if s[q] == '\'' && !(g.terminals.contains(id) || g.nonterminals.contains(id)) {
        with_literal(g, id, name, None, Assoc::Unset, 0)
    } else {
        g
    };
    let next = now(st, x.to, h);
    assert(grows(st.g, g));
    assert(grows(g, h));
    if g.symbols.len() <= usize::MAX {
        lemma_interned(st.g, name);
        lemma_placed_stays(s, st.g, h, n, alt, more, ps, i);
        lemma_prec_stays(s, st.g, h, alt, more, ps, i);
        assert(is_placed(s, h, n, more, ps, i));
    }
    (next, more)
}

/// Whether an alternative with the parts was read.
#[verifier::opaque]
spec fn is_read(
    s: Seq<char>,
    o: Outcome,
    warnings: Seq<Seq<char>>,
    before: GrammarView,
    lhs: usize,
    ps: Seq<Part>,
    e: int,
) -> bool {
    o matches Outcome::Done(end) && end.pos == e && end.warnings == warnings && (
    end.g.symbols.len() <= usize::MAX ==> alternative_added(s, before, end.g, lhs, ps))
}

/// The end of an alternative, with the block that stands there.
proof fn lemma_end(
    s: Seq<char>,
    st: Progress,
    alt: RuleView,
    before: GrammarView,
    p: int,
    ps: Seq<Part>,
    e: int,
)
    requires
        0 <= p <= s.len(),
        made_of(s, p, ps, e),
        is_whole(s, ps, e),
        is_ready(s, st, alt, before, p, ps, inner(ps)),
    ensures
        is_read(s, alternative_rest(s, st, alt), st.warnings, before, alt.lhs, ps, e),
{
    reveal(is_ready);
    reveal(is_read);
    lemma_skip(s, st.pos);
    let q = skip(s, st.pos);
    let done = RuleView { action: final_code(s, ps), ..alt };
    let r = RuleView { rule_number: st.g.rules.len() as usize, ..done };
    assert(st.g.symbols.len() <= usize::MAX ==> are_placed(
        s,
        st.g,
        before.rules.len(),
        r,
        ps,
        inner(ps),
    )) by {
        if st.g.symbols.len() <= usize::MAX {
            let n = before.rules.len();
            lemma_placed_stays(s, st.g, st.g, n, alt, r, ps, inner(ps));
            lemma_prec_stays(s, st.g, st.g, alt, r, ps, inner(ps));
        }
    }
    lemma_finish(s, st, before, alt.lhs, r, ps);
    if ends_in_block(ps) {
        assert(is_next_part(s, p, ps, ps.len() - 1));
        lemma_braced_end(s, q + 1);
        lemma_skip(s, ps.last().to);
        lemma_ends_behind_block(s, e);
        assert(alternative_rest(s, st, alt) == finished(st, e, done));
    } else {
        assert(done == alt);
        assert(q == e);
        assert(alternative_rest(s, st, alt) == finished(st, e, alt));
    }
}

/// The rest of an alternative of which the first `i` parts have been read.
proof fn lemma_rest(
    s: Seq<char>,
    st: Progress,
    alt: RuleView,
    before: GrammarView,
    p: int,
    ps: Seq<Part>,
    e: int,
    i: int,
)
    requires
        0 <= p <= s.len(),
        made_of(s, p, ps, e),
        is_whole(s, ps, e),
        0 <= i <= inner(ps),
        is_ready(s, st, alt, before, p, ps, i),
    ensures
        is_read(s, alternative_rest(s, st, alt), st.warnings, before, alt.lhs, ps, e),
    decreases ps.len() - i,
{
    if i == inner(ps) {
        lemma_end(s, st, alt, before, p, ps, e);
    } else {
        if ps[i].kind is Block {
            assert(i < ps.len() - 1);
            let (next, more) = lemma_read_block(s, st, alt, before, p, ps, e, i);
            lemma_rest(s, next, more, before, p, ps, e, i + 1);
        } else if ps[i].kind is Prec {
            let (next, more) = lemma_read_prec(s, st, alt, before, p, ps, e, i);
            lemma_rest(s, next, more, before, p, ps, e, i + 1);
        } else {
            let (next, more) = lemma_read_symbol(s, st, alt, before, p, ps, e, i);
            lemma_rest(s, next, more, before, p, ps, e, i + 1);
        }
    }
}

proof fn lemma_skip_stays(s: Seq<char>, p: int)
    requires
        0 <= p <= s.len(),
    ensures
        skip(s, skip(s, p)) == skip(s, p),
{
    lemma_skip(s, p);
}

/// The rule of an alternative that has been read whole.
proof fn lemma_finish(
    s: Seq<char>,
    st: Progress,
    before: GrammarView,
    lhs: usize,
    r: RuleView,
    ps: Seq<Part>,
)
    requires
        grows(before, st.g),
        r.lhs == lhs,
        r.action == final_code(s, ps),
        st.g.symbols.len() <= usize::MAX ==> are_placed(
            s,
            st.g,
            before.rules.len(),
            r,
            ps,
            inner(ps),
        ),
        st.g.rules.len() == before.rules.len() + blocks(ps, inner(ps)),
    ensures
        st.g.symbols.len() <= usize::MAX ==> alternative_added(
            s,
            before,
            with_rule(st.g, r),
            lhs,
            ps,
        ),
{
    let h = with_rule(st.g, r);
    let n = before.rules.len();
    assert(grows(st.g, h));
    if st.g.symbols.len() <= usize::MAX {
        lemma_placed_stays(s, st.g, h, n, r, r, ps, inner(ps));
        lemma_prec_stays(s, st.g, h, r, r, ps, inner(ps));
    }
}

/// An alternative is read as its parts say. Its rule has a symbol for each symbol of the
/// text and for each block that is not at the end, in their order. Its action is the code of
/// the block at the end, and is empty where a symbol stands behind the last block. Each
/// other block is the action of one rule of its own.
pub proof fn law_alternative(
    s: Seq<char>,
    st: Progress,
    lhs: usize,
    ps: Seq<Part>,
    e: int,
)
    requires
        0 <= st.pos <= s.len(),
        made_of(s, st.pos, ps, e),
        is_whole(s, ps, e),
    ensures
        alternative(s, st, lhs) matches Outcome::Done(end) && end.pos == e && end.warnings
            == st.warnings && (end.g.symbols.len() <= usize::MAX ==> alternative_added(
            s,
            st.g,
            end.g,
            lhs,
            ps,
        )),
{
    let alt = RuleView {
        lhs,
        rhs: Seq::empty(),
        action: Seq::empty(),
        action_line: line_of(s, st.pos) as usize,
        prec_sym: None,
        rule_number: 0,
    };
    reveal(is_ready);
    reveal(is_read);
    lemma_rest(s, st, alt, st.g, st.pos, ps, e, 0);
}

/// Whether each rule of `h` behind the first `n` carries its own number and the line.
pub open spec fn are_numbered(h: GrammarView, n: nat, line: usize) -> bool {
    forall|k: int|
        n <= k < h.rules.len() ==> (#[trigger] h.rules[k]).rule_number == k as usize
            && h.rules[k].action_line == line
}

proof fn lemma_rest_lines(s: Seq<char>, st: Progress, alt: RuleView, n: nat)
    requires
        n <= st.g.rules.len(),
        are_numbered(st.g, n, alt.action_line),
    ensures
        alternative_rest(s, st, alt) matches Outcome::Done(end) ==> are_numbered(
            end.g,
            n,
            alt.action_line,
        ),
    decreases s.len() - st.pos,
{
    let p = skip(s, st.pos);
    if !(st.pos < 0 || st.pos > s.len() || p >= s.len() || s[p] == ';' || s[p] == '|') {
        lemma_skip(s, st.pos);
        lemma_literal_end(s, p, '\'');
        lemma_ident_end(s, p);
        if s[p] == '{' {
            lemma_braced_end(s, p + 1);
            lemma_skip(s, braced_end(s, p + 1));
            let q = skip(s, braced_end(s, p + 1));
            let (g, id) = with_mid_rule(st.g, braced_code(s, p + 1), alt.action_line);
            assert(are_numbered(g, n, alt.action_line));
            lemma_rest_lines(
                s,
                now(st, q, g),
                RuleView { rhs: alt.rhs.push(id), action: Seq::empty(), ..alt },
                n,
            );
        } else if s[p] == '%' {
            if at_prec(s, p) {
                lemma_ident_end(s, p + 1);
                lemma_skip(s, ident_end(s, p + 1));
                lemma_symbol_end(s, skip(s, ident_end(s, p + 1)));
                let q = skip(s, ident_end(s, p + 1));
                let e = symbol_end(s, q);
                let (g, id) = intern(st.g, s.subrange(q, e));
                lemma_rest_lines(s, now(st, e, g), RuleView { prec_sym: Some(id), ..alt }, n);
            }
        } else if s[p] == '\'' {
            let e = literal_end(s, p, '\'');
            let lit = s.subrange(p, e);
            let (g, id) = intern(st.g, lit);
            let more = RuleView { rhs: alt.rhs.push(id), ..alt };
            let h = with_literal(g, id, lit, None, Assoc::Unset, 0);
            lemma_rest_lines(s, now(st, e, g), more, n);
            lemma_rest_lines(s, now(st, e, h), more, n);
        } else if is_ident_start(s[p]) {
            let e = ident_end(s, p);
            let (g, id) = intern(st.g, s.subrange(p, e));
            lemma_rest_lines(s, now(st, e, g), RuleView { rhs: alt.rhs.push(id), ..alt }, n);
        }
    }
}

/// The rules of an alternative carry their own numbers, and the line in which the alternative
/// begins.
pub proof fn law_alternative_lines(s: Seq<char>, st: Progress, lhs: usize)
    ensures
        alternative(s, st, lhs) matches Outcome::Done(end) ==> are_numbered(
            end.g,
            st.g.rules.len(),
            line_of(s, st.pos) as usize,
        ),
{
    lemma_rest_lines(
        s,
        st,
        RuleView {
            lhs,
            rhs: Seq::empty(),
            action: Seq::empty(),
            action_line: line_of(s, st.pos) as usize,
            prec_sym: None,
            rule_number: 0,
        },
        st.g.rules.len(),
    );
}

// ---------------------------------------------------------------------------
// Literals become tokens
// ---------------------------------------------------------------------------

/// Whether all tokens of `g` are in `h` as they are, and each other token of `h` is a literal
/// with the code of the character that it quotes, and has no tag and no precedence.
pub open spec fn adds_literals(g: GrammarView, h: GrammarView) -> bool {
    &&& forall|x: usize| #[trigger]
        g.tokens.dom().contains(x) ==> h.tokens.dom().contains(x) && h.tokens[x] == g.tokens[x]
    &&& forall|x: usize| #[trigger]
        h.tokens.dom().contains(x) ==> h.terminals.contains(x)
    &&& forall|x: usize| #[trigger]
        h.tokens.dom().contains(x) && !g.tokens.dom().contains(x) ==> {
            let t = h.tokens[x];
            &&& is_called(h, x, t.name)
            &&& t.name.len() > 0 && t.name[0] == '\''
            &&& t.is_literal
            &&& t.value == literal_code(t.name)
            &&& t.tag is None && t.prec == 0 && t.assoc == Assoc::Unset
        }
    &&& h.next_prec == g.next_prec
}

proof fn lemma_literals_then(a: GrammarView, b: GrammarView, c: GrammarView)
    requires
        adds_literals(a, b),
        adds_literals(b, c),
        grows(b, c),
    ensures
        adds_literals(a, c),
{
    assert forall|x: usize| #[trigger] a.tokens.dom().contains(x) implies c.tokens.dom().contains(x)
        && c.tokens[x] == a.tokens[x] by {
        assert(b.tokens.dom().contains(x));
    }
    assert forall|x: usize| #[trigger]
        c.tokens.dom().contains(x) && !a.tokens.dom().contains(x) implies {
        let t = c.tokens[x];
        &&& is_called(c, x, t.name)
        &&& t.name.len() > 0 && t.name[0] == '\''
        &&& t.is_literal
        &&& t.value == literal_code(t.name)
        &&& t.tag is None && t.prec == 0 && t.assoc == Assoc::Unset
    } by {
        if b.tokens.dom().contains(x) {
            assert(c.tokens[x] == b.tokens[x]);
        }
    }
}

/// The rest of an alternative leaves the tokens what they are, and adds literals.
pub proof fn lemma_rest_literals(s: Seq<char>, st: Progress, alt: RuleView)
    requires
        forall|x: usize| #[trigger]
            st.g.tokens.dom().contains(x) ==> st.g.terminals.contains(x),
    ensures
        alternative_rest(s, st, alt) matches Outcome::Done(end) ==> end.g.symbols.len()
            <= usize::MAX ==> adds_literals(st.g, end.g),
    decreases s.len() - st.pos, 0int,
{
    let p = skip(s, st.pos);
    if !(st.pos < 0 || st.pos > s.len() || p >= s.len() || s[p] == ';' || s[p] == '|') {
        lemma_skip(s, st.pos);
        lemma_literal_end(s, p, '\'');
        lemma_ident_end(s, p);
        if s[p] == '{' {
            lemma_braced_end(s, p + 1);
            lemma_skip(s, braced_end(s, p + 1));
            let q = skip(s, braced_end(s, p + 1));
            let (g, id) = with_mid_rule(st.g, braced_code(s, p + 1), alt.action_line);
            lemma_literals_from(
                s,
                st,
                now(st, q, g),
                RuleView { rhs: alt.rhs.push(id), action: Seq::empty(), ..alt },
            );
        } else if s[p] == '%' {
            if at_prec(s, p) {
                lemma_ident_end(s, p + 1);
                lemma_skip(s, ident_end(s, p + 1));
                lemma_symbol_end(s, skip(s, ident_end(s, p + 1)));
                let q = skip(s, ident_end(s, p + 1));
                let e = symbol_end(s, q);
                let (g, id) = intern(st.g, s.subrange(q, e));
                lemma_literals_from(s, st, now(st, e, g), RuleView { prec_sym: Some(id), ..alt });
            }
        } else if s[p] == '\'' {
            let e = literal_end(s, p, '\'');
            let lit = s.subrange(p, e);
            assert(lit[0] == '\'');
            let (g, id) = intern(st.g, lit);
            let more = RuleView { rhs: alt.rhs.push(id), ..alt };
            if g.terminals.contains(id) || g.nonterminals.contains(id) {
                lemma_literals_from(s, st, now(st, e, g), more);
            } else {
                let h = with_literal(g, id, lit, None, Assoc::Unset, 0);
                let next = now(st, e, h);
                lemma_alternative_rest_grows(s, next, more);
                lemma_rest_literals(s, next, more);
                if g.symbols.len() <= usize::MAX {
                    lemma_interned(st.g, lit);
                    assert(adds_literals(st.g, h));
                    match alternative_rest(s, next, more) {
                        Outcome::Done(end) => {
                            if end.g.symbols.len() <= usize::MAX {
                                lemma_literals_then(st.g, h, end.g);
                            }
                        },
                        _ => {},
                    }
                }
            }
        } else if is_ident_start(s[p]) {
            let e = ident_end(s, p);
            let (g, id) = intern(st.g, s.subrange(p, e));
            lemma_literals_from(s, st, now(st, e, g), RuleView { rhs: alt.rhs.push(id), ..alt });
        }
    }
}

proof fn lemma_literals_from(s: Seq<char>, st: Progress, next: Progress, more: RuleView)
    requires
        forall|x: usize| #[trigger]
            st.g.tokens.dom().contains(x) ==> st.g.terminals.contains(x),
        next.g.tokens == st.g.tokens,
        next.g.terminals == st.g.terminals,
        next.g.next_prec == st.g.next_prec,
        st.pos < next.pos <= s.len(),
        st.pos >= 0,
    ensures
        alternative_rest(s, next, more) matches Outcome::Done(end) ==> end.g.symbols.len()
            <= usize::MAX ==> adds_literals(st.g, end.g),
    decreases s.len() - next.pos, 1int,
{
    lemma_rest_literals(s, next, more);
}

/// An alternative leaves all tokens what they are. A literal in it that was no token becomes
/// one, with the code of the character that it quotes; nothing else does.
pub proof fn law_alternative_literals(s: Seq<char>, st: Progress, lhs: usize)
    requires
        forall|x: usize| #[trigger]
            st.g.tokens.dom().contains(x) ==> st.g.terminals.contains(x),
    ensures
        alternative(s, st, lhs) matches Outcome::Done(end) ==> end.g.symbols.len() <= usize::MAX
            ==> adds_literals(st.g, end.g),
{
    lemma_rest_literals(
        s,
        st,
        RuleView {
            lhs,
            rhs: Seq::empty(),
            action: Seq::empty(),
            action_line: line_of(s, st.pos) as usize,
            prec_sym: None,
            rule_number: 0,
        },
    );
}

} // verus!
