//! Laws that relate the parts of the library.

use crate::action::{piece, transformed};
use crate::cli::{header_name, last_before, last_name, lemma_last_before, stem, without_extension};
use crate::codegen::{is_named, is_used, named_tokens, number_of, place_of, used_symbols};
use crate::grammar::{intern, is_symbol, wf, wf_token, Assoc, GrammarView};
use crate::lexer::{lemma_skip, skip};
use crate::syntax::{next_after, with_named};
use crate::text::{dec, digit_char, digit_value, digits_value, is_digit, number_or_zero};
use vstd::prelude::*;

verus! {

// ---------------------------------------------------------------------------
// Symbols and tokens
// ---------------------------------------------------------------------------

/// Two symbols with one name are one symbol.
pub proof fn law_symbol_unique(g: GrammarView, a: usize, b: usize)
    requires
        wf(g),
        is_symbol(g, a),
        is_symbol(g, b),
        g.symbols[a as int] == g.symbols[b as int],
    ensures
        a == b,
{
}

/// A name that is interned twice is one symbol, and the second time changes nothing.
pub proof fn law_intern_twice(g: GrammarView, name: Seq<char>)
    requires
        wf(g),
        g.symbols.len() < usize::MAX,
    ensures
        intern(intern(g, name).0, name) == intern(g, name),
{
    let (h, id) = intern(g, name);
    assert(h.symbols[id as int] == name);
    assert(h.symbols.contains(name));
    let j = h.symbols.index_of(name);
    assert(h.symbols[j] == name);
    assert(j == id);
}

/// Two names are two symbols, and a symbol keeps its name and its number when others are
/// interned.
pub proof fn law_intern_apart(g: GrammarView, a: Seq<char>, b: Seq<char>)
    requires
        wf(g),
        g.symbols.len() + 1 < usize::MAX,
        a != b,
    ensures
        ({
            let (h, x) = intern(g, a);
            let (k, y) = intern(h, b);
            &&& x != y
            &&& k.symbols[x as int] == a
            &&& k.symbols[y as int] == b
            &&& g.symbols.is_prefix_of(k.symbols)
        }),
{
    let (h, x) = intern(g, a);
    assert(h.symbols[x as int] == a);
    let (k, y) = intern(h, b);
    if h.symbols.contains(b) {
        let j = h.symbols.index_of(b);
        assert(h.symbols[j] == b);
    }
    assert(k.symbols[y as int] == b);
}

/// The number that is given out next is higher than those of all named tokens.
pub proof fn law_next_number(g: GrammarView, x: usize)
    requires
        wf(g),
        g.tokens.dom().contains(x),
        !g.tokens[x].is_literal,
    ensures
        g.tokens[x].value matches Some(v) && v < g.next_token_value,
{
    assert(wf_token(g, x, g.tokens[x]));
}

/// Once a number has been given to a token, whether the file gave it or it was the next one,
/// all numbers given out later are higher.
pub proof fn law_numbers_rise(
    g: GrammarView,
    sym: usize,
    name: Seq<char>,
    v: i32,
    tag: Option<Seq<char>>,
    assoc: Assoc,
    prec: i32,
)
    requires
        next_after(g.next_token_value, v) <= i32::MAX,
    ensures
        v < with_named(g, sym, name, v, tag, assoc, prec).next_token_value,
        g.next_token_value <= with_named(g, sym, name, v, tag, assoc, prec).next_token_value,
{
}

/// The precedence that is given out next is higher than those of all tokens.
pub proof fn law_next_precedence(g: GrammarView, x: usize)
    requires
        wf(g),
        g.tokens.dom().contains(x),
    ensures
        0 <= g.tokens[x].prec < g.next_prec,
{
    assert(wf_token(g, x, g.tokens[x]));
}

// ---------------------------------------------------------------------------
// Text
// ---------------------------------------------------------------------------

/// Behind white space and comments there is no more white space and no comment.
pub proof fn law_skip_twice(s: Seq<char>, p: int)
    requires
        0 <= p <= s.len(),
    ensures
        skip(s, skip(s, p)) == skip(s, p),
{
    lemma_skip(s, p);
}

/// What is written of a number is read as that number.
pub proof fn law_decimal(n: nat)
    ensures
        digits_value(dec(n), 10) == n,
        dec(n).len() >= 1,
        forall|i: int| 0 <= i < dec(n).len() ==> is_digit(#[trigger] dec(n)[i]),
        n <= i32::MAX ==> number_or_zero(dec(n), 10) == n,
    decreases n,
{
    let d = n % 10;
    let c = digit_char(d);
    assert(is_digit(c) && digit_value(c) == d);
    if n < 10 {
        assert(dec(n).drop_last() =~= Seq::<char>::empty());
        assert(digits_value(Seq::<char>::empty(), 10) == 0);
    } else {
        law_decimal(n / 10);
        assert(dec(n).drop_last() =~= dec(n / 10));
        assert(dec(n).last() == c);
    }
}

/// Two numbers are written in two ways.
pub proof fn law_decimal_apart(m: nat, n: nat)
    requires
        dec(m) == dec(n),
    ensures
        m == n,
{
    law_decimal(m);
    law_decimal(n);
}

/// Code without a dollar sign and an at sign is written as it stands.
pub proof fn law_plain_action(s: Seq<char>, p: int)
    requires
        0 <= p <= s.len(),
        forall|i: int| 0 <= i < s.len() ==> s[i] != '$' && s[i] != '@',
    ensures
        transformed(s, p) == s.skip(p),
    decreases s.len() - p,
{
    if p < s.len() {
        law_plain_action(s, p + 1);
        assert(piece(s, p) == (seq![s[p]], p + 1));
        assert(seq![s[p]] + s.skip(p + 1) =~= s.skip(p));
    } else {
        assert(s.skip(p) =~= Seq::<char>::empty());
    }
}

// ---------------------------------------------------------------------------
// Lists in the generated code
// ---------------------------------------------------------------------------

/// Whether the tokens stand in the order of their numbers.
pub open spec fn by_number(g: GrammarView, s: Seq<usize>) -> bool {
    forall|i: int, j: int|
        0 <= i < j < s.len() ==> number_of(g, #[trigger] s[i]) <= number_of(g, #[trigger] s[j])
}

proof fn lemma_place(g: GrammarView, s: Seq<usize>, v: i32)
    requires
        by_number(g, s),
    ensures
        0 <= place_of(g, s, v) <= s.len(),
        forall|i: int| 0 <= i < place_of(g, s, v) ==> number_of(g, #[trigger] s[i]) <= v,
        forall|i: int| place_of(g, s, v) <= i < s.len() ==> v < number_of(g, #[trigger] s[i]),
    decreases s.len(),
{
    if s.len() > 0 {
        let b = s.drop_last();
        let q = place_of(g, s, v);
        assert forall|i: int, j: int| 0 <= i < j < b.len() implies number_of(g, #[trigger] b[i])
            <= number_of(g, #[trigger] b[j]) by {
            assert(b[i] == s[i] && b[j] == s[j]);
        }
        lemma_place(g, b, v);
        if number_of(g, s.last()) <= v {
            assert forall|i: int| 0 <= i < q implies number_of(g, #[trigger] s[i]) <= v by {
                if i < s.len() - 1 {
                    assert(number_of(g, s[i]) <= number_of(g, s[s.len() - 1]));
                }
            }
        } else {
            assert forall|i: int| 0 <= i < q implies number_of(g, #[trigger] s[i]) <= v by {
                assert(b[i] == s[i]);
            }
            assert forall|i: int| q <= i < s.len() implies v < number_of(g, #[trigger] s[i]) by {
                if i < s.len() - 1 {
                    assert(b[i] == s[i]);
                }
            }
        }
    }
}

/// The tokens that the generated code declares are the named ones, each once, in the order
/// of their numbers.
pub proof fn law_named_tokens(g: GrammarView, n: int)
    requires
        0 <= n <= usize::MAX,
    ensures
        by_number(g, named_tokens(g, n)),
        named_tokens(g, n).no_duplicates(),
        forall|x: usize| #[trigger]
            named_tokens(g, n).contains(x) <==> x < n && is_named(g, x),
    decreases n,
{
    if n > 0 {
        law_named_tokens(g, n - 1);
        let s = named_tokens(g, n - 1);
        let t = named_tokens(g, n);
        let x = (n - 1) as usize;
        if is_named(g, x) {
            let q = place_of(g, s, number_of(g, x));
            lemma_place(g, s, number_of(g, x));
            assert(t == s.insert(q, x));
            assert forall|i: int, j: int| 0 <= i < j < t.len() implies number_of(g, #[trigger] t[i])
                <= number_of(g, #[trigger] t[j]) by {
                let a = if i < q {
                    i
                } else {
                    i - 1
                };
                let b = if j < q {
                    j
                } else {
                    j - 1
                };
                if i != q {
                    assert(t[i] == s[a]);
                }
                if j != q {
                    assert(t[j] == s[b]);
                }
            }
            assert(!s.contains(x));
            assert forall|i: int, j: int| 0 <= i < t.len() && 0 <= j < t.len() && i != j implies t[i]
                != t[j] by {
                if i != q {
                    assert(t[i] == s[if i < q { i } else { i - 1 }]);
                    assert(s.contains(t[i]));
                }
                if j != q {
                    assert(t[j] == s[if j < q { j } else { j - 1 }]);
                    assert(s.contains(t[j]));
                }
            }
            assert forall|y: usize| #[trigger] t.contains(y) <==> y < n && is_named(g, y) by {
                if t.contains(y) {
                    let i = choose|i: int| 0 <= i < t.len() && t[i] == y;
                    if i != q {
                        assert(t[i] == s[if i < q { i } else { i - 1 }]);
                        assert(s.contains(y));
                    }
                }
                if y < n && is_named(g, y) {
                    if y == x {
                        assert(t[q] == x);
                    } else {
                        assert(s.contains(y));
                        let i = choose|i: int| 0 <= i < s.len() && s[i] == y;
                        assert(t[if i < q { i } else { i + 1 }] == y);
                    }
                }
            }
        } else {
            assert forall|y: usize| #[trigger] t.contains(y) <==> y < n && is_named(g, y) by {
                assert(t == s);
                assert(s.contains(y) <==> y < n - 1 && is_named(g, y));
            }
        }
    }
}

/// The columns of the table of actions are the symbols on which a state has an action, each
/// once, in order.
pub proof fn law_used_symbols(actions: Seq<Map<usize, i32>>, n: int)
    requires
        0 <= n <= usize::MAX,
    ensures
        forall|i: int, j: int|
            0 <= i < j < used_symbols(actions, n).len() ==> #[trigger] used_symbols(actions, n)[i]
                < #[trigger] used_symbols(actions, n)[j],
        forall|x: usize| #[trigger]
            used_symbols(actions, n).contains(x) <==> x < n && is_used(actions, x),
    decreases n,
{
    if n > 0 {
        law_used_symbols(actions, n - 1);
        let s = used_symbols(actions, n - 1);
        let t = used_symbols(actions, n);
        let x = (n - 1) as usize;
        assert forall|i: int, j: int| 0 <= i < j < t.len() implies #[trigger] t[i]
            < #[trigger] t[j] by {
            if j == s.len() {
                assert(s.contains(s[i]));
            }
        }
        assert forall|y: usize| #[trigger] t.contains(y) <==> y < n && is_used(actions, y) by {
            assert(s.contains(y) <==> y < n - 1 && is_used(actions, y));
            if t.contains(y) {
                let i = choose|i: int| 0 <= i < t.len() && t[i] == y;
                if i < s.len() {
                    assert(s[i] == y);
                }
            }
            if s.contains(y) {
                let i = choose|i: int| 0 <= i < s.len() && s[i] == y;
                assert(t[i] == y);
            }
            if y == x && is_used(actions, x) {
                assert(t[s.len() as int] == y);
            }
        }
    }
}

// ---------------------------------------------------------------------------
// Names of files
// ---------------------------------------------------------------------------

proof fn lemma_last_before_none(s: Seq<char>, e: int, c: char, i: int)
    requires
        last_before(s, e, c) < i < e,
    ensures
        s[i] != c,
    decreases e,
{
    if e > 0 && s[e - 1] != c && i < e - 1 {
        lemma_last_before_none(s, e - 1, c, i);
    }
}

proof fn lemma_last_name(s: Seq<char>, e: int)
    requires
        e <= s.len(),
    ensures
        last_name(s, e) matches Some(name) ==> name.len() > 0 && !name.contains('/'),
    decreases e,
{
    if e >= 0 {
        let slash = last_before(s, e, '/');
        lemma_last_before(s, e, '/');
        let part = s.subrange(slash + 1, e);
        if part.len() > 0 && part != seq!['.'] {
            if part.contains('/') {
                let i = choose|i: int| 0 <= i < part.len() && part[i] == '/';
                lemma_last_before_none(s, e, '/', slash + 1 + i);
            }
        } else if slash >= 0 {
            lemma_last_name(s, slash);
        }
    }
}

/// The name that output files take from the path of the input is not empty and names no
/// directory.
pub proof fn law_stem(path: Seq<char>)
    ensures
        stem(path).len() > 0,
        !stem(path).contains('/'),
{
    reveal_strlit("y");
    lemma_last_name(path, path.len() as int);
    match last_name(path, path.len() as int) {
        Some(name) => {
            lemma_last_before(name, name.len() as int, '.');
            let short = without_extension(name);
            if short.contains('/') {
                let i = choose|i: int| 0 <= i < short.len() && short[i] == '/';
                assert(name[i] == '/');
                assert(name.contains('/'));
            }
        },
        None => {},
    }
    if "y"@.contains('/') {
        let i = choose|i: int| 0 <= i < "y"@.len() && "y"@[i] == '/';
        assert("y"@[0] == 'y');
    }
}

/// Where the command line gives no names, source and header file differ in their last letter
/// only.
pub proof fn law_default_names(path: Seq<char>)
    ensures
        header_name(stem(path) + ".tab.c"@) == stem(path) + ".tab.h"@,
{
    reveal_strlit(".tab.c");
    reveal_strlit(".tab.h");
    reveal_strlit("h");
    let output = stem(path) + ".tab.c"@;
    assert(output[output.len() - 2] == '.');
    assert(output[output.len() - 1] == 'c');
    assert(output.drop_last() + "h"@ =~= stem(path) + ".tab.h"@);
}

} // verus!
