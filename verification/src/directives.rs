//! What becomes of the declarations of a file.

use crate::alternatives::{is_called, lemma_interned};
use crate::grammar::{intern, with_tag, Assoc, GrammarView, TokenView};
use crate::growth::{grows, lemma_token_list_grows, lemma_type_list_grows};
use crate::lexer::{
    at1, braced_code, ident_end, lemma_ident_end, lemma_literal_end, lemma_number_end, lemma_skip,
    literal_end, number_at, skip, skip_on_line, tag_at, tag_end, word_end,
};
use crate::syntax::{
    declarations, directive, has_inside, literal_code, moved_to, next_after, now, token_list,
    token_number, token_number_end, type_list, with_literal, with_named, Outcome, Progress,
};
use crate::text::{digits_value, is_digit, is_hex, is_ident_start};
use crate::translation::{denotes, fitting};
use crate::words::{both_at, closes, law_digits, law_find, law_find_both, law_quoted};
use vstd::prelude::*;

verus! {

// ---------------------------------------------------------------------------
// Lists of symbols
// ---------------------------------------------------------------------------

/// The names and literals in a list of tokens.
pub open spec fn listed_tokens(s: Seq<char>, p: int) -> Set<Seq<char>>
    decreases s.len() - p,
{
    let q = skip(s, p);
    if p < 0 || p > s.len() || q >= s.len() {
        Set::empty()
    } else if is_ident_start(s[q]) {
        proof {
            lemma_skip(s, p);
            lemma_ident_end(s, q);
            lemma_skip(s, ident_end(s, q));
            lemma_number_end(s, skip(s, ident_end(s, q)));
        }
        let e = ident_end(s, q);
        listed_tokens(s, token_number_end(s, e)).insert(s.subrange(q, e))
    } else if s[q] == '\'' {
        proof {
            lemma_skip(s, p);
            lemma_literal_end(s, q, '\'');
        }
        let e = literal_end(s, q, '\'');
        listed_tokens(s, e).insert(s.subrange(q, e))
    } else {
        Set::empty()
    }
}

/// The names and literals in a list of symbols.
pub open spec fn listed_symbols(s: Seq<char>, p: int) -> Set<Seq<char>>
    decreases s.len() - p,
{
    let q = skip(s, p);
    if p < 0 || p > s.len() || q >= s.len() {
        Set::empty()
    } else if is_ident_start(s[q]) || s[q] == '\'' {
        proof {
            lemma_skip(s, p);
            lemma_ident_end(s, q);
            lemma_literal_end(s, q, '\'');
        }
        let e = if s[q] == '\'' {
            literal_end(s, q, '\'')
        } else {
            ident_end(s, q)
        };
        listed_symbols(s, e).insert(s.subrange(q, e))
    } else {
        Set::empty()
    }
}

/// What is known of the token with the name, if there is one.
pub open spec fn token_named(g: GrammarView, name: Seq<char>) -> Option<TokenView> {
    let id = g.symbols.index_of(name) as usize;
    if g.symbols.contains(name) && g.tokens.dom().contains(id) && g.terminals.contains(id) {
        Some(g.tokens[id])
    } else {
        None
    }
}

/// The tag of the symbol with the name, if it has one.
pub open spec fn tag_named(g: GrammarView, name: Seq<char>) -> Option<Seq<char>> {
    let id = g.symbols.index_of(name) as usize;
    if g.symbols.contains(name) && g.type_tags.dom().contains(id) {
        Some(g.type_tags[id])
    } else {
        None
    }
}

/// Whether the grammar `h` is `g` with the name among its symbols, and nothing else is said
/// of other names.
spec fn only_about(g: GrammarView, h: GrammarView, name: Seq<char>) -> bool {
    &&& g.symbols.no_duplicates()
    &&& intern(g, name).0.symbols.len() <= usize::MAX
    &&& h.symbols == intern(g, name).0.symbols
    &&& forall|x: usize|
        x != intern(g, name).1 ==> {
            &&& #[trigger] h.tokens.dom().contains(x) <==> g.tokens.dom().contains(x)
            &&& h.tokens[x] == g.tokens[x]
            &&& h.terminals.contains(x) <==> g.terminals.contains(x)
        }
    &&& forall|x: usize|
        x != intern(g, name).1 ==> {
            &&& #[trigger] h.type_tags.dom().contains(x) <==> g.type_tags.dom().contains(x)
            &&& h.type_tags[x] == g.type_tags[x]
        }
}

proof fn lemma_others_kept(g: GrammarView, h: GrammarView, name: Seq<char>, a: Seq<char>)
    requires
        only_about(g, h, name),
        g.symbols.contains(a),
        a != name,
    ensures
        h.symbols.no_duplicates(),
        h.symbols.contains(a),
        token_named(h, a) == token_named(g, a),
        tag_named(h, a) == tag_named(g, a),
{
    lemma_own(g, h, name);
    let i = g.symbols.index_of(a);
    assert(g.symbols[i] == a);
    assert(h.symbols[i] == a);
    let j = h.symbols.index_of(a);
    assert(h.symbols[j] == a);
    assert(i == j);
    let x = i as usize;
    assert(h.symbols[intern(g, name).1 as int] == name);
    assert(x != intern(g, name).1);
    assert(h.tokens.dom().contains(x) <==> g.tokens.dom().contains(x));
    assert(h.type_tags.dom().contains(x) <==> g.type_tags.dom().contains(x));
}

proof fn lemma_own(g: GrammarView, h: GrammarView, name: Seq<char>)
    requires
        only_about(g, h, name),
    ensures
        h.symbols.no_duplicates(),
        h.symbols.contains(name),
        h.symbols.index_of(name) as usize == intern(g, name).1,
        h.symbols[intern(g, name).1 as int] == name,
{
    let id = intern(g, name).1;
    if g.symbols.contains(name) {
        let k = g.symbols.index_of(name);
        assert(g.symbols[k] == name);
    }
    assert(h.symbols[id as int] == name);
    let j = h.symbols.index_of(name);
    assert(h.symbols[j] == name);
}

/// Whether the token is as a declaration with the tag, associativity and precedence makes
/// it.
pub open spec fn is_declared(
    t: TokenView,
    name: Seq<char>,
    tag: Option<Seq<char>>,
    assoc: Assoc,
    prec: i32,
) -> bool {
    &&& t.name == name
    &&& t.tag == tag
    &&& t.assoc == assoc
    &&& t.prec == prec
    &&& t.is_literal <==> name[0] == '\''
    &&& t.is_literal ==> t.value == literal_code(name)
    &&& !t.is_literal ==> t.value is Some
}

/// Each name and each literal in a list of tokens is a token afterwards, with the tag, the
/// associativity and the precedence of the declaration. What is known of another symbol
/// stays.
pub proof fn law_list_declares(
    s: Seq<char>,
    st: Progress,
    tag: Option<Seq<char>>,
    assoc: Assoc,
    prec: i32,
    a: Seq<char>,
)
    requires
        st.g.symbols.no_duplicates(),
    ensures
        token_list(s, st, tag, assoc, prec) matches Outcome::Done(end) ==> end.g.symbols.len()
            <= usize::MAX ==> {
            &&& end.g.symbols.no_duplicates()
            &&& listed_tokens(s, st.pos).contains(a) ==> (token_named(end.g, a) matches Some(t)
                && is_declared(t, a, tag, assoc, prec)) && (tag is Some ==> tag_named(end.g, a)
                == tag)
            &&& !listed_tokens(s, st.pos).contains(a) && st.g.symbols.contains(a) ==> token_named(
                end.g,
                a,
            ) == token_named(st.g, a) && tag_named(end.g, a) == tag_named(st.g, a)
            &&& end.g.next_prec == st.g.next_prec
        },
    decreases s.len() - st.pos,
{
    let p = skip(s, st.pos);
    if !(st.pos < 0 || st.pos > s.len() || p >= s.len()) {
        lemma_skip(s, st.pos);
        lemma_ident_end(s, p);
        lemma_literal_end(s, p, '\'');
        let e = ident_end(s, p);
        lemma_skip(s, e);
        lemma_number_end(s, skip(s, e));
        if is_ident_start(s[p]) {
            let name = s.subrange(p, e);
            assert(name[0] == s[p]);
            let (g, id) = intern(st.g, name);
            let v = token_number(s, e, g);
            let h = with_named(g, id, name, v, tag, assoc, prec);
            let next = now(st, token_number_end(s, e), h);
            lemma_token_list_grows(s, next, tag, assoc, prec);
            if next_after(g.next_token_value, v) <= i32::MAX && g.symbols.len() <= usize::MAX {
                assert(only_about(st.g, h, name));
                lemma_own(st.g, h, name);
                if st.g.symbols.contains(a) && a != name {
                    lemma_others_kept(st.g, h, name, a);
                }
                law_list_declares(s, next, tag, assoc, prec, a);
            }
        } else if s[p] == '\'' {
            let f = literal_end(s, p, '\'');
            let lit = s.subrange(p, f);
            assert(lit[0] == '\'');
            let (g, id) = intern(st.g, lit);
            let h = with_literal(g, id, lit, tag, assoc, prec);
            let next = now(st, f, h);
            lemma_token_list_grows(s, next, tag, assoc, prec);
            if g.symbols.len() <= usize::MAX {
                assert(only_about(st.g, h, lit));
                lemma_own(st.g, h, lit);
                if st.g.symbols.contains(a) && a != lit {
                    lemma_others_kept(st.g, h, lit, a);
                }
                law_list_declares(s, next, tag, assoc, prec, a);
            }
        }
    }
}

/// Each name and each literal in a list of a declaration of types has its tag afterwards.
pub proof fn law_types_declared(s: Seq<char>, st: Progress, tag: Seq<char>, a: Seq<char>)
    requires
        st.g.symbols.no_duplicates(),
    ensures
        type_list(s, st, tag).g.symbols.len() <= usize::MAX ==> {
            let h = type_list(s, st, tag).g;
            &&& h.symbols.no_duplicates()
            &&& listed_symbols(s, st.pos).contains(a) ==> tag_named(h, a) == Some(tag)
            &&& !listed_symbols(s, st.pos).contains(a) && st.g.symbols.contains(a) ==> tag_named(
                h,
                a,
            ) == tag_named(st.g, a)
            &&& st.g.symbols.contains(a) ==> token_named(h, a) == token_named(st.g, a)
        },
    decreases s.len() - st.pos,
{
    let p = skip(s, st.pos);
    if !(st.pos < 0 || st.pos > s.len() || p >= s.len()) {
        lemma_skip(s, st.pos);
        lemma_ident_end(s, p);
        lemma_literal_end(s, p, '\'');
        if is_ident_start(s[p]) || s[p] == '\'' {
            let e = if s[p] == '\'' {
                literal_end(s, p, '\'')
            } else {
                ident_end(s, p)
            };
            let name = s.subrange(p, e);
            let (g, id) = intern(st.g, name);
            let h = with_tag(g, id, tag);
            let next = now(st, e, h);
            lemma_type_list_grows(s, next, tag);
            if g.symbols.len() <= usize::MAX {
                assert(only_about(st.g, h, name));
                lemma_own(st.g, h, name);
                if st.g.symbols.contains(a) && a != name {
                    lemma_others_kept(st.g, h, name, a);
                }
                if st.g.symbols.contains(a) && a == name {
                    let i = st.g.symbols.index_of(a);
                    assert(st.g.symbols[i] == a);
                }
                law_types_declared(s, next, tag, a);
            }
        }
    }
}

// ---------------------------------------------------------------------------
// Directives
// ---------------------------------------------------------------------------

/// The word of the directive whose percent sign stands before `p`.
pub open spec fn directive_word(s: Seq<char>, p: int) -> Seq<char> {
    s.subrange(p, ident_end(s, p))
}

/// The associativity that a directive which declares tokens gives them.
pub open spec fn declared_assoc(word: Seq<char>) -> Option<Assoc> {
    if word == "token"@ {
        Some(Assoc::Unset)
    } else if word == "left"@ {
        Some(Assoc::Left)
    } else if word == "right"@ {
        Some(Assoc::Right)
    } else if word == "nonassoc"@ {
        Some(Assoc::NonAssoc)
    } else {
        None
    }
}

/// `%token`, `%left`, `%right` and `%nonassoc` make tokens of what is listed behind them,
/// with the tag ahead of the list. Those of `%token` have no precedence; those of the others
/// have one precedence, which is the next one, and the next one is then higher by one.
pub proof fn law_tokens_directive(s: Seq<char>, st: Progress, a: Seq<char>)
    requires
        st.g.symbols.no_duplicates(),
        declared_assoc(directive_word(s, st.pos)) is Some,
    ensures
        directive(s, st) matches Outcome::Done(end) ==> end.g.symbols.len() <= usize::MAX ==> {
            let word = directive_word(s, st.pos);
            let e = ident_end(s, st.pos);
            let listed = listed_tokens(s, tag_end(s, e));
            let prec = if word == "token"@ {
                0i32
            } else {
                st.g.next_prec
            };
            &&& listed.contains(a) ==> (token_named(end.g, a) matches Some(t) && is_declared(
                t,
                a,
                tag_at(s, e),
                declared_assoc(word)->0,
                prec,
            ))
            &&& !listed.contains(a) && st.g.symbols.contains(a) ==> token_named(end.g, a)
                == token_named(st.g, a)
            &&& end.g.next_prec == if word == "token"@ {
                st.g.next_prec as int
            } else {
                st.g.next_prec + 1
            }
        },
{
    lemma_words();
    let e = ident_end(s, st.pos);
    let q = tag_end(s, e);
    let tag = tag_at(s, e);
    let here = moved_to(st, e);
    law_list_declares(s, moved_to(here, q), tag, Assoc::Unset, 0, a);
    if st.g.next_prec < i32::MAX {
        let raised = now(here, e, GrammarView { next_prec: (st.g.next_prec + 1) as i32, ..st.g });
        law_list_declares(s, moved_to(raised, q), tag, Assoc::Left, st.g.next_prec, a);
        law_list_declares(s, moved_to(raised, q), tag, Assoc::Right, st.g.next_prec, a);
        law_list_declares(s, moved_to(raised, q), tag, Assoc::NonAssoc, st.g.next_prec, a);
        assert(token_named(raised.g, a) == token_named(st.g, a));
    }
}

/// The words of directives are all different.
proof fn lemma_words()
    ensures
        "token"@ != "left"@ && "token"@ != "right"@ && "token"@ != "nonassoc"@,
        "left"@ != "right"@ && "left"@ != "nonassoc"@ && "right"@ != "nonassoc"@,
        "type"@ != "token"@ && "type"@ != "left"@ && "type"@ != "right"@ && "type"@ != "nonassoc"@
            && "type"@ != "union"@,
        "start"@ != "token"@ && "start"@ != "left"@ && "start"@ != "right"@ && "start"@
            != "nonassoc"@ && "start"@ != "union"@ && "start"@ != "type"@,
        "union"@ != "token"@ && "union"@ != "left"@ && "union"@ != "right"@ && "union"@
            != "nonassoc"@,
        "expect"@ != "token"@ && "expect"@ != "left"@ && "expect"@ != "right"@ && "expect"@
            != "nonassoc"@ && "expect"@ != "union"@ && "expect"@ != "type"@ && "expect"@
            != "start"@,
{
    reveal_strlit("token");
    reveal_strlit("left");
    reveal_strlit("right");
    reveal_strlit("nonassoc");
    reveal_strlit("type");
    reveal_strlit("start");
    reveal_strlit("union");
    reveal_strlit("expect");
    assert("token"@[0] == 't' && "left"@[0] == 'l' && "right"@[0] == 'r' && "nonassoc"@[0] == 'n');
    assert("type"@[0] == 't' && "type"@[1] == 'y' && "token"@[1] == 'o');
    assert("start"@[0] == 's' && "union"@[0] == 'u' && "expect"@[0] == 'e');
}

/// `%type` gives its tag to what is listed behind it; without a tag it is refused.
pub proof fn law_type_directive(s: Seq<char>, st: Progress, a: Seq<char>)
    requires
        st.g.symbols.no_duplicates(),
        directive_word(s, st.pos) == "type"@,
    ensures
        ({
            let e = ident_end(s, st.pos);
            &&& tag_at(s, e) is None ==> directive(s, st) is Failed
            &&& tag_at(s, e) matches Some(tag) ==> (directive(s, st) matches Outcome::Done(end) && (
            end.g.symbols.len() <= usize::MAX && listed_symbols(s, tag_end(s, e)).contains(a)
                ==> tag_named(end.g, a) == Some(tag)))
        }),
{
    lemma_words();
    let e = ident_end(s, st.pos);
    match tag_at(s, e) {
        Some(tag) => {
            law_types_declared(s, moved_to(moved_to(st, e), tag_end(s, e)), tag, a);
        },
        None => {},
    }
}

/// `%start` makes the symbol that is named behind it the start symbol.
pub proof fn law_start_directive(s: Seq<char>, st: Progress)
    requires
        directive_word(s, st.pos) == "start"@,
    ensures
        ({
            let q = skip(s, ident_end(s, st.pos));
            directive(s, st) matches Outcome::Done(end) && end.pos == ident_end(s, q) && (
            end.g.symbols.len() <= usize::MAX ==> end.g.start is Some && is_called(
                end.g,
                end.g.start->0,
                s.subrange(q, ident_end(s, q)),
            ))
        }),
{
    lemma_words();
    let q = skip(s, ident_end(s, st.pos));
    let name = s.subrange(q, ident_end(s, q));
    if intern(st.g, name).0.symbols.len() <= usize::MAX {
        lemma_interned(st.g, name);
    }
}

/// `%union` keeps the code in braces behind it as the type of the values.
pub proof fn law_union_directive(s: Seq<char>, st: Progress)
    requires
        directive_word(s, st.pos) == "union"@,
    ensures
        ({
            let q = skip(s, ident_end(s, st.pos));
            directive(s, st) matches Outcome::Done(end) && end.g.union_code == if at1(s, q, '{') {
                braced_code(s, q + 1)
            } else {
                st.g.union_code
            }
        }),
{
    lemma_words();
}

/// `%expect` keeps the number behind it, whatever digits it has.
pub proof fn law_expect_directive(s: Seq<char>, st: Progress, q: int, f: int, n: nat)
    requires
        0 <= st.pos <= s.len(),
        directive_word(s, st.pos) == "expect"@,
        q == skip(s, ident_end(s, st.pos)),
        q < f <= s.len(),
        denotes(s.subrange(q, f), n),
        f < s.len() ==> !is_digit(s[f]),
        !both_at(s, q, '0', 'x') && !both_at(s, q, '0', 'X'),
    ensures
        directive(s, st) matches Outcome::Done(end) && end.pos == f && end.g.expect_conflicts
            == Some(fitting(n) as i32),
{
    lemma_words();
    lemma_ident_end(s, st.pos);
    lemma_skip(s, ident_end(s, st.pos));
    law_number(s, q, f, n);
}

/// A number in decimal notation is read as what its digits denote, up to the first character
/// that is no digit. One that has no room in 32 bits is zero.
pub proof fn law_number(s: Seq<char>, q: int, f: int, n: nat)
    requires
        0 <= q < f <= s.len(),
        denotes(s.subrange(q, f), n),
        f < s.len() ==> !is_digit(s[f]),
        !both_at(s, q, '0', 'x') && !both_at(s, q, '0', 'X'),
    ensures
        number_at(s, q) == fitting(n),
        crate::lexer::number_end(s, q) == f,
{
    law_digits(s, q);
    let e = crate::lexer::digits_end(s, q);
    let ds = s.subrange(q, f);
    if e < f {
        assert(is_digit(ds[e - q]));
    }
    if f < e {
        assert(is_digit(s[f]));
    }
}

/// A literal that quotes one character has the code of it.
pub proof fn law_literal_code(c: char)
    requires
        c != '\\',
    ensures
        literal_code(seq!['\'', c, '\'']) == Some(c as i32),
        has_inside(seq!['\'', c, '\'']),
{
    let lit = seq!['\'', c, '\''];
    assert(lit.subrange(1, lit.len() - 1) =~= seq![c]);
}

/// A literal that quotes a character behind a backslash has the code of the control character
/// that it stands for, and for a character that stands for none, its own.
pub proof fn law_escape_code(c: char)
    ensures
        ({
            let code = literal_code(seq!['\'', '\\', c, '\'']);
            &&& c == 'n' ==> code == Some(10i32)
            &&& c == 't' ==> code == Some(9i32)
            &&& c == 'r' ==> code == Some(13i32)
            &&& c == '0' ==> code == Some(0i32)
            &&& c == 'a' ==> code == Some(7i32)
            &&& c == 'b' ==> code == Some(8i32)
            &&& c == 'f' ==> code == Some(12i32)
            &&& c == 'v' ==> code == Some(11i32)
            &&& !(c == 'n' || c == 't' || c == 'r' || c == '0' || c == 'a' || c == 'b' || c == 'f'
                || c == 'v') ==> code == Some(c as i32)
        }),
{
    let lit = seq!['\'', '\\', c, '\''];
    assert(lit.subrange(1, lit.len() - 1) =~= seq!['\\', c]);
}

/// A block of code between `%{` and `%}` is added to the prologue with a line feed behind
/// it, and reading goes on behind it.
pub proof fn law_prologue(s: Seq<char>, st: Progress, e: int)
    requires
        0 <= st.pos <= s.len(),
        both_at(s, skip(s, st.pos), '%', '{'),
        both_at(s, e, '%', '}'),
        skip(s, st.pos) + 2 <= e,
        forall|k: int| skip(s, st.pos) + 2 <= k < e ==> !#[trigger] both_at(s, k, '%', '}'),
    ensures
        declarations(s, st) == declarations(
            s,
            now(
                st,
                e + 2,
                GrammarView {
                    prologue: st.g.prologue + s.subrange(skip(s, st.pos) + 2, e) + seq!['\n'],
                    ..st.g
                },
            ),
        ),
{
    let p = skip(s, st.pos);
    lemma_skip(s, st.pos);
    law_find_both(s, p + 2, '%', '}');
    let f = crate::lexer::find2(s, p + 2, '%', '}');
    if f < e {
        assert(both_at(s, f, '%', '}'));
    }
    if e < f {
        assert(!both_at(s, e, '%', '}'));
    }
    assert((st.g.prologue + s.subrange(p + 2, e)).push('\n') =~= st.g.prologue + s.subrange(
        p + 2,
        e,
    ) + seq!['\n']);
}

/// Declarations are read one behind the other: where a directive was read, reading goes on
/// behind it with what it has made of the grammar. They end at two percent signs.
pub proof fn law_declarations_in_order(s: Seq<char>, st: Progress)
    requires
        0 <= st.pos <= s.len(),
        skip(s, st.pos) < s.len(),
    ensures
        ({
            let p = skip(s, st.pos);
            &&& both_at(s, p, '%', '%') ==> declarations(s, st) == Outcome::Done(moved_to(st, p))
            &&& s[p] == '%' && !both_at(s, p, '%', '%') && !both_at(s, p, '%', '{') ==> match directive(
                s,
                moved_to(st, p + 1),
            ) {
                Outcome::Done(next) => declarations(s, st) == declarations(s, next),
                o => declarations(s, st) == o,
            }
        }),
{
}

/// A number behind `0x` or `0X` is read as what its hexadecimal digits denote, up to the
/// first character that is none. One that has no room in 32 bits is zero.
pub proof fn law_hex_number(s: Seq<char>, q: int, f: int)
    requires
        0 <= q,
        q + 2 <= f <= s.len(),
        both_at(s, q, '0', 'x') || both_at(s, q, '0', 'X'),
        forall|k: int| q + 2 <= k < f ==> is_hex(#[trigger] s[k]),
        f < s.len() ==> !is_hex(s[f]),
    ensures
        number_at(s, q) == fitting(digits_value(s.subrange(q + 2, f), 16)),
        crate::lexer::number_end(s, q) == f,
{
    law_digits(s, q + 2);
    let e = crate::lexer::hex_end(s, q + 2);
    if e < f {
        assert(is_hex(s[e]));
    }
    if f < e {
        assert(is_hex(s[f]));
    }
}

/// The number that digits denote grows with each digit by the radix.
pub proof fn law_digits_value(ds: Seq<char>, c: char)
    ensures
        is_digit(c) ==> digits_value(ds.push(c), 10) == digits_value(ds, 10) * 10 + (c as int - '0'
            as int),
        is_digit(c) ==> digits_value(ds.push(c), 16) == digits_value(ds, 16) * 16 + (c as int - '0'
            as int),
        'a' <= c && c <= 'f' ==> digits_value(ds.push(c), 16) == digits_value(ds, 16) * 16 + 10 + (
        c as int - 'a' as int),
        'A' <= c && c <= 'F' ==> digits_value(ds.push(c), 16) == digits_value(ds, 16) * 16 + 10 + (
        c as int - 'A' as int),
        digits_value(Seq::<char>::empty(), 10) == 0,
        digits_value(Seq::<char>::empty(), 16) == 0,
{
    assert(ds.push(c).drop_last() =~= ds);
}

/// `%defines` asks for a header file.
pub proof fn law_defines_directive(s: Seq<char>, st: Progress)
    requires
        directive_word(s, st.pos) == "defines"@,
    ensures
        directive(s, st) matches Outcome::Done(end) && end.g == (GrammarView {
            defines: true,
            ..st.g
        }) && end.warnings == st.warnings,
{
    lemma_later_words();
}

/// The words of later directives, by their first letters.
proof fn lemma_later_words()
    ensures
        "defines"@[0] == 'd' && "defines"@.len() == 7,
        "define"@[0] == 'd' && "define"@.len() == 6,
        "destructor"@[0] == 'd' && "destructor"@.len() == 10,
        "output"@[0] == 'o',
        "pure"@[0] == 'p' && "pure"@.len() == 4,
        "pure_parser"@[0] == 'p' && "pure_parser"@.len() == 11,
        "printer"@[0] == 'p' && "printer"@.len() == 7,
        "error"@[0] == 'e' && "error"@.len() == 5,
        "expect"@[0] == 'e' && "expect"@.len() == 6,
        "verbose"@[0] == 'v',
        "token"@[0] == 't' && "token"@.len() == 5,
        "type"@[0] == 't' && "type"@.len() == 4,
        "left"@[0] == 'l',
        "right"@[0] == 'r',
        "nonassoc"@[0] == 'n',
        "union"@[0] == 'u',
        "start"@[0] == 's',
        ""@.len() == 0,
{
    reveal_strlit("defines");
    reveal_strlit("define");
    reveal_strlit("destructor");
    reveal_strlit("output");
    reveal_strlit("pure");
    reveal_strlit("pure_parser");
    reveal_strlit("printer");
    reveal_strlit("error");
    reveal_strlit("expect");
    reveal_strlit("verbose");
    reveal_strlit("token");
    reveal_strlit("type");
    reveal_strlit("left");
    reveal_strlit("right");
    reveal_strlit("nonassoc");
    reveal_strlit("union");
    reveal_strlit("start");
    reveal_strlit("");
}

/// Whether the word is that of a directive that says nothing of the grammar.
pub open spec fn says_nothing(word: Seq<char>) -> bool {
    word == "define"@ || word == "output"@ || word == "pure"@ || word == "pure_parser"@ || word
        == "error"@ || word == "verbose"@ || word == "destructor"@ || word == "printer"@
}

/// Directives that say nothing of the grammar change nothing of it, and give no warning.
pub proof fn law_idle_directive(s: Seq<char>, st: Progress)
    requires
        says_nothing(directive_word(s, st.pos)),
    ensures
        directive(s, st) matches Outcome::Done(end) && end.g == st.g && end.warnings == st.warnings,
{
    lemma_later_words();
}

/// Whether the word is that of a directive that says something of the grammar.
pub open spec fn says_something(word: Seq<char>) -> bool {
    declared_assoc(word) is Some || word == "union"@ || word == "type"@ || word == "start"@ || word
        == "expect"@ || word == "defines"@
}

/// A directive with a word that is not known changes nothing of the grammar and gives one
/// warning, which names it. What stands behind it on its line is passed over.
pub proof fn law_unknown_directive(s: Seq<char>, st: Progress)
    requires
        0 <= st.pos <= s.len(),
        !says_nothing(directive_word(s, st.pos)),
        !says_something(directive_word(s, st.pos)),
        directive_word(s, st.pos).len() > 0,
    ensures
        directive(s, st) matches Outcome::Done(end) && end.g == st.g && end.warnings
            == st.warnings.push("warning: unknown directive %"@ + directive_word(s, st.pos))
            && end.pos <= s.len() && (end.pos < s.len() ==> s[end.pos] == '\n') && forall|k: int|
            ident_end(s, st.pos) <= k < end.pos ==> #[trigger] s[k] != '\n',
{
    lemma_later_words();
    lemma_ident_end(s, st.pos);
    law_find(s, ident_end(s, st.pos), '\n');
}

/// Where a list of tokens ends: at the first thing that is neither a name nor a literal nor
/// the number of a name.
pub open spec fn list_end(s: Seq<char>, p: int) -> int
    decreases s.len() - p,
{
    let q = skip(s, p);
    if p < 0 || p > s.len() || q >= s.len() {
        q
    } else if is_ident_start(s[q]) {
        proof {
            lemma_skip(s, p);
            lemma_ident_end(s, q);
            lemma_skip(s, ident_end(s, q));
            lemma_number_end(s, skip(s, ident_end(s, q)));
        }
        list_end(s, token_number_end(s, ident_end(s, q)))
    } else if s[q] == '\'' {
        proof {
            lemma_skip(s, p);
            lemma_literal_end(s, q, '\'');
        }
        list_end(s, literal_end(s, q, '\''))
    } else {
        q
    }
}

/// A list of tokens is read up to its end, and gives no warning.
pub proof fn law_list_end(
    s: Seq<char>,
    st: Progress,
    tag: Option<Seq<char>>,
    assoc: Assoc,
    prec: i32,
)
    requires
        0 <= st.pos <= s.len(),
    ensures
        token_list(s, st, tag, assoc, prec) matches Outcome::Done(end) ==> {
            &&& end.pos == list_end(s, st.pos)
            &&& st.pos <= end.pos <= s.len()
            &&& end.pos < s.len() ==> !is_ident_start(s[end.pos]) && s[end.pos] != '\''
            &&& end.warnings == st.warnings
        },
    decreases s.len() - st.pos,
{
    let p = skip(s, st.pos);
    lemma_skip(s, st.pos);
    if p < s.len() {
        lemma_ident_end(s, p);
        lemma_literal_end(s, p, '\'');
        let e = ident_end(s, p);
        lemma_skip(s, e);
        lemma_number_end(s, skip(s, e));
        if is_ident_start(s[p]) {
            let name = s.subrange(p, e);
            let (g, id) = intern(st.g, name);
            let v = token_number(s, e, g);
            let h = with_named(g, id, name, v, tag, assoc, prec);
            law_list_end(s, now(st, token_number_end(s, e), h), tag, assoc, prec);
        } else if s[p] == '\'' {
            let f = literal_end(s, p, '\'');
            let lit = s.subrange(p, f);
            let (g, id) = intern(st.g, lit);
            let h = with_literal(g, id, lit, tag, assoc, prec);
            law_list_end(s, now(st, f, h), tag, assoc, prec);
        }
    }
}

/// Where reading goes on behind directives that say nothing of the grammar or take a text in
/// quotes: behind the text if there is one, and else where the next thing stands. Behind
/// `%pure` the rest of its longer name is passed over.
pub proof fn law_directive_ends(s: Seq<char>, st: Progress)
    requires
        0 <= st.pos <= s.len(),
    ensures
        ({
            let word = directive_word(s, st.pos);
            let e = ident_end(s, st.pos);
            let q = skip(s, e);
            &&& word == "verbose"@ || word == "error"@ || word == "pure_parser"@ ==> (directive(
                s,
                st,
            ) matches Outcome::Done(end) && end.pos == q)
            &&& word == "pure"@ ==> (directive(s, st) matches Outcome::Done(end) && end.pos == if e
                + 7 <= s.len() && s.subrange(e, e + 7) == "-parser"@ {
                skip(s, e + 7)
            } else {
                q
            })
            &&& (word == "output"@ || word == "defines"@) && !(q < s.len() && s[q] == '"') ==> (
            directive(s, st) matches Outcome::Done(end) && end.pos == q)
            &&& (word == "output"@ || word == "defines"@) ==> forall|f: int|
                q < f < s.len() && s[q] == '"' && #[trigger] closes(s, q + 1, f, '"') ==> (directive(
                    s,
                    st,
                ) matches Outcome::Done(end) && end.pos == f + 1)
        }),
{
    lemma_later_words();
    lemma_ident_end(s, st.pos);
    let q = skip(s, ident_end(s, st.pos));
    lemma_skip(s, ident_end(s, st.pos));
    assert forall|f: int| q < f < s.len() && s[q] == '"' && #[trigger] closes(s, q + 1, f, '"') implies literal_end(
    s, q, '"') == f + 1 by {
        law_quoted(s, q + 1, f, '"');
    }
}

/// `%define` ends with its line: behind the key, white space and whole comments are passed
/// over as long as no line feed stands outside them, and then what stands on the line.
pub proof fn law_define_ends(s: Seq<char>, st: Progress)
    requires
        0 <= st.pos <= s.len(),
        directive_word(s, st.pos) == "define"@,
    ensures
        ({
            let key = word_end(s, skip(s, ident_end(s, st.pos)));
            let value = skip_on_line(s, key);
            directive(s, st) matches Outcome::Done(end) && end.pos <= s.len() && value <= end.pos
                && (end.pos < s.len() ==> s[end.pos] == '\n') && (forall|k: int|
                value <= k < end.pos ==> #[trigger] s[k] != '\n') && (key < s.len() && s[key]
                == '\n' ==> end.pos == key)
        }),
{
    lemma_later_words();
    lemma_ident_end(s, st.pos);
    lemma_skip(s, ident_end(s, st.pos));
    let q = skip(s, ident_end(s, st.pos));
    crate::lexer::lemma_word_end(s, q);
    let key = word_end(s, q);
    crate::lexer::lemma_skip_on_line(s, key);
    law_find(s, skip_on_line(s, key), '\n');
    reveal_with_fuel(skip_on_line, 2);
}

/// What begins with no percent sign is no declaration, and is passed over up to the end of
/// its line.
pub proof fn law_no_declaration(s: Seq<char>, st: Progress, f: int)
    requires
        0 <= st.pos <= s.len(),
        skip(s, st.pos) < f < s.len(),
        s[skip(s, st.pos)] != '%',
        s[f] == '\n',
        forall|k: int| skip(s, st.pos) < k < f ==> #[trigger] s[k] != '\n',
    ensures
        declarations(s, st) == declarations(s, moved_to(st, f)),
{
    let p = skip(s, st.pos);
    lemma_skip(s, st.pos);
    law_find(s, p, '\n');
    let e = crate::lexer::find(s, p, '\n');
    if e < f && e > p {
        assert(s[e] != '\n');
    }
    if f < e {
        assert(s[f] != '\n');
    }
}

// ---------------------------------------------------------------------------
// What has room is read
// ---------------------------------------------------------------------------

/// Whether the numbers in the text have room: none is higher than `b`, and from there on there
/// is room for one number more for each character of the text.
pub open spec fn numbers_have_room(s: Seq<char>, b: int) -> bool {
    &&& b + s.len() + 1 < i32::MAX
    &&& forall|q: int| 0 <= q <= s.len() ==> #[trigger] number_at(s, q) <= b
}

/// Whether no literal among the tokens is cut off.
pub open spec fn literals_closed(listed: Set<Seq<char>>) -> bool {
    forall|a: Seq<char>| #[trigger] listed.contains(a) && a[0] == '\'' ==> has_inside(a)
}

/// A list of tokens is read where its numbers have room and its literals are closed.
pub proof fn law_list_read(
    s: Seq<char>,
    st: Progress,
    tag: Option<Seq<char>>,
    assoc: Assoc,
    prec: i32,
    b: int,
)
    requires
        0 <= st.pos <= s.len(),
        numbers_have_room(s, b),
        st.g.next_token_value <= b + 1 + st.pos,
        literals_closed(listed_tokens(s, st.pos)),
    ensures
        token_list(s, st, tag, assoc, prec) is Done,
    decreases s.len() - st.pos,
{
    let p = skip(s, st.pos);
    lemma_skip(s, st.pos);
    if p < s.len() {
        lemma_ident_end(s, p);
        lemma_literal_end(s, p, '\'');
        let e = ident_end(s, p);
        lemma_skip(s, e);
        let q = skip(s, e);
        lemma_number_end(s, q);
        if is_ident_start(s[p]) {
            let name = s.subrange(p, e);
            let (g, id) = intern(st.g, name);
            let v = token_number(s, e, g);
            assert(number_at(s, q) <= b);
            let h = with_named(g, id, name, v, tag, assoc, prec);
            let next = now(st, token_number_end(s, e), h);
            assert(listed_tokens(s, st.pos) == listed_tokens(s, next.pos).insert(name));
            assert forall|a: Seq<char>| #[trigger]
                listed_tokens(s, next.pos).contains(a) && a[0] == '\'' implies has_inside(a) by {
                assert(listed_tokens(s, st.pos).contains(a));
            }
            assert(next.pos >= st.pos + 1);
            law_list_read(s, next, tag, assoc, prec, b);
        } else if s[p] == '\'' {
            let f = literal_end(s, p, '\'');
            let lit = s.subrange(p, f);
            assert(lit[0] == '\'');
            let (g, id) = intern(st.g, lit);
            let h = with_literal(g, id, lit, tag, assoc, prec);
            let next = now(st, f, h);
            assert(listed_tokens(s, st.pos) == listed_tokens(s, f).insert(lit));
            assert(listed_tokens(s, st.pos).contains(lit));
            assert forall|a: Seq<char>| #[trigger]
                listed_tokens(s, f).contains(a) && a[0] == '\'' implies has_inside(a) by {
                assert(listed_tokens(s, st.pos).contains(a));
            }
            law_list_read(s, next, tag, assoc, prec, b);
        }
    }
}

/// `%token`, `%left`, `%right` and `%nonassoc` are read where the numbers have room, the
/// literals are closed and there is another precedence to give out.
pub proof fn law_tokens_read(s: Seq<char>, st: Progress, b: int)
    requires
        0 <= st.pos <= s.len(),
        declared_assoc(directive_word(s, st.pos)) is Some,
        numbers_have_room(s, b),
        st.g.next_token_value <= b + 1 + st.pos,
        st.g.next_prec < i32::MAX,
        literals_closed(listed_tokens(s, tag_end(s, ident_end(s, st.pos)))),
    ensures
        directive(s, st) is Done,
{
    lemma_words();
    let e = ident_end(s, st.pos);
    lemma_ident_end(s, st.pos);
    crate::lexer::lemma_tag_end(s, e);
    let q = tag_end(s, e);
    let tag = tag_at(s, e);
    let here = moved_to(st, e);
    law_list_read(s, moved_to(here, q), tag, Assoc::Unset, 0, b);
    let raised = now(here, e, GrammarView { next_prec: (st.g.next_prec + 1) as i32, ..st.g });
    law_list_read(s, moved_to(raised, q), tag, Assoc::Left, st.g.next_prec, b);
    law_list_read(s, moved_to(raised, q), tag, Assoc::Right, st.g.next_prec, b);
    law_list_read(s, moved_to(raised, q), tag, Assoc::NonAssoc, st.g.next_prec, b);
}

} // verus!
