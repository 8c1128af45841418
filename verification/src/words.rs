//! Where the words of a text end: what stands inside them, and what ends them.

use crate::lexer::{
    at, blanks_end, braced_code, braced_end, code_end, comment_end, digits_end, find, find2,
    hex_end, ident_end, lemma_comment_end, lemma_line_end, lemma_quoted_end, lemma_skip, line_end,
    line_of, literal_end, quoted_end, skip, tag_at, tag_end, word_end,
};
use crate::text::{is_blank, is_digit, is_hex, is_ident, is_ident_start, is_space};
use vstd::prelude::*;

verus! {

/// An identifier holds all characters that one may hold, up to the first that none may hold.
pub proof fn law_ident(s: Seq<char>, p: int)
    requires
        0 <= p <= s.len(),
    ensures
        p <= ident_end(s, p) <= s.len(),
        forall|k: int| p <= k < ident_end(s, p) ==> is_ident(#[trigger] s[k]),
        ident_end(s, p) < s.len() ==> !is_ident(s[ident_end(s, p)]),
    decreases s.len() - p,
{
    if p < s.len() && is_ident(s[p]) {
        law_ident(s, p + 1);
    }
}

/// Blanks reach up to the first character that is none.
pub proof fn law_blanks(s: Seq<char>, p: int)
    requires
        0 <= p <= s.len(),
    ensures
        p <= blanks_end(s, p) <= s.len(),
        forall|k: int| p <= k < blanks_end(s, p) ==> is_blank(#[trigger] s[k]),
        blanks_end(s, p) < s.len() ==> !is_blank(s[blanks_end(s, p)]),
    decreases s.len() - p,
{
    if p < s.len() && is_blank(s[p]) {
        law_blanks(s, p + 1);
    }
}

/// Digits reach up to the first character that is none, decimal as hexadecimal ones.
pub proof fn law_digits(s: Seq<char>, p: int)
    requires
        0 <= p <= s.len(),
    ensures
        p <= digits_end(s, p) <= s.len(),
        forall|k: int| p <= k < digits_end(s, p) ==> is_digit(#[trigger] s[k]),
        digits_end(s, p) < s.len() ==> !is_digit(s[digits_end(s, p)]),
        p <= hex_end(s, p) <= s.len(),
        forall|k: int| p <= k < hex_end(s, p) ==> is_hex(#[trigger] s[k]),
        hex_end(s, p) < s.len() ==> !is_hex(s[hex_end(s, p)]),
    decreases s.len() - p,
{
    if p < s.len() && is_hex(s[p]) {
        law_digits(s, p + 1);
    }
}

/// A word reaches up to the first white space.
pub proof fn law_word(s: Seq<char>, p: int)
    requires
        0 <= p <= s.len(),
    ensures
        p <= word_end(s, p) <= s.len(),
        forall|k: int| p <= k < word_end(s, p) ==> !is_space(#[trigger] s[k]),
        word_end(s, p) < s.len() ==> is_space(s[word_end(s, p)]),
    decreases s.len() - p,
{
    if p < s.len() && !is_space(s[p]) {
        law_word(s, p + 1);
    }
}

/// A character is found where it stands first.
pub proof fn law_find(s: Seq<char>, p: int, c: char)
    requires
        0 <= p <= s.len(),
    ensures
        p <= find(s, p, c) <= s.len(),
        forall|k: int| p <= k < find(s, p, c) ==> #[trigger] s[k] != c,
        find(s, p, c) < s.len() ==> s[find(s, p, c)] == c,
    decreases s.len() - p,
{
    if p < s.len() && s[p] != c {
        law_find(s, p + 1, c);
    }
}

/// Whether `a` with `b` behind it stands at `k`.
pub open spec fn both_at(s: Seq<char>, k: int, a: char, b: char) -> bool {
    0 <= k && k + 1 < s.len() && s[k] == a && s[k + 1] == b
}

/// Two characters are found where they first stand one behind the other.
pub proof fn law_find_both(s: Seq<char>, p: int, a: char, b: char)
    requires
        0 <= p <= s.len(),
    ensures
        p <= find2(s, p, a, b) <= s.len(),
        forall|k: int| p <= k < find2(s, p, a, b) ==> !#[trigger] both_at(s, k, a, b),
        find2(s, p, a, b) < s.len() ==> both_at(s, find2(s, p, a, b), a, b),
    decreases s.len() - p,
{
    if p < s.len() && !at(s, p, a, b) {
        law_find_both(s, p + 1, a, b);
    }
}

/// White space is passed over one character by the other.
pub proof fn law_skip_space(s: Seq<char>, p: int)
    requires
        0 <= p < s.len(),
        is_space(s[p]),
    ensures
        skip(s, p) == skip(s, p + 1),
{
}

/// A comment in slash and star is passed over up to the first star with a slash behind it,
/// whatever stands between.
pub proof fn law_skip_comment(s: Seq<char>, p: int, e: int)
    requires
        0 <= p,
        p + 2 <= e,
        both_at(s, p, '/', '*'),
        both_at(s, e, '*', '/'),
        forall|k: int| p + 2 <= k < e ==> !#[trigger] both_at(s, k, '*', '/'),
    ensures
        skip(s, p) == skip(s, e + 2),
{
    law_find_both(s, p + 2, '*', '/');
    let f = find2(s, p + 2, '*', '/');
    if f < e {
        assert(both_at(s, f, '*', '/'));
    }
    assert(!(e < f)) by {
        if e < f {
            assert(!both_at(s, e, '*', '/'));
        }
    }
}

/// A comment that nothing ends takes the rest of the text.
pub proof fn law_skip_open_comment(s: Seq<char>, p: int)
    requires
        0 <= p,
        both_at(s, p, '/', '*'),
        forall|k: int| p + 2 <= k ==> !#[trigger] both_at(s, k, '*', '/'),
    ensures
        skip(s, p) == s.len(),
{
    law_find_both(s, p + 2, '*', '/');
    let f = find2(s, p + 2, '*', '/');
    if f < s.len() {
        assert(both_at(s, f, '*', '/'));
    }
    assert(comment_end(s, p + 2) == s.len());
    assert(skip(s, s.len() as int) == s.len());
}

/// A comment in two slashes is passed over up to the end of its line.
pub proof fn law_skip_line(s: Seq<char>, p: int, e: int)
    requires
        0 <= p,
        p + 2 <= e < s.len(),
        both_at(s, p, '/', '/'),
        s[e] == '\n',
        forall|k: int| p + 2 <= k < e ==> #[trigger] s[k] != '\n',
    ensures
        skip(s, p) == skip(s, e + 1),
{
    law_find(s, p + 2, '\n');
    let f = find(s, p + 2, '\n');
    if f < e {
        assert(s[f] != '\n');
    }
    assert(!(e < f)) by {
        if e < f {
            assert(s[e] != '\n');
        }
    }
}

/// Nothing is passed over where neither white space nor a comment stands.
pub proof fn law_skip_none(s: Seq<char>, p: int)
    requires
        0 <= p <= s.len(),
        p < s.len() ==> !is_space(s[p]),
        !both_at(s, p, '/', '*'),
        !both_at(s, p, '/', '/'),
    ensures
        skip(s, p) == p,
{
}

/// Whether the quote at `e` is the first in the text from `p` on that no backslash stands
/// before, where a backslash goes with the character behind it.
pub open spec fn closes(s: Seq<char>, p: int, e: int, q: char) -> bool
    decreases e - p,
{
    if p >= e {
        p == e && 0 <= p < s.len() && s[p] == q
    } else if s[p] == '\\' {
        p + 2 <= e && closes(s, p + 2, e, q)
    } else {
        s[p] != q && closes(s, p + 1, e, q)
    }
}

/// A quoted text ends behind its closing quote.
pub proof fn law_quoted(s: Seq<char>, p: int, e: int, q: char)
    requires
        0 <= p,
        q != '\\',
        closes(s, p, e, q),
    ensures
        quoted_end(s, p, q) == e + 1,
    decreases e - p,
{
    if p < e {
        lemma_closes(s, p, e, q);
        if s[p] == '\\' {
            lemma_closes(s, p + 2, e, q);
            law_quoted(s, p + 2, e, q);
        } else {
            law_quoted(s, p + 1, e, q);
        }
    }
}

proof fn lemma_closes(s: Seq<char>, p: int, e: int, q: char)
    requires
        closes(s, p, e, q),
    ensures
        p <= e,
        e < s.len(),
    decreases e - p,
{
    if p < e {
        if s[p] == '\\' {
            lemma_closes(s, p + 2, e, q);
        } else {
            lemma_closes(s, p + 1, e, q);
        }
    }
}

/// A quoted text without a backslash ends behind the first quote.
pub proof fn law_quoted_plain(s: Seq<char>, p: int, e: int, q: char)
    requires
        0 <= p <= e < s.len(),
        q != '\\',
        s[e] == q,
        forall|k: int| p <= k < e ==> #[trigger] s[k] != q && s[k] != '\\',
    ensures
        quoted_end(s, p, q) == e + 1,
        p >= 1 ==> literal_end(s, p - 1, q) == e + 1,
    decreases e - p,
{
    if p < e {
        law_quoted_plain(s, p + 1, e, q);
        assert(s[p] != q && s[p] != '\\');
    }
}

// ---------------------------------------------------------------------------
// Blocks of code
// ---------------------------------------------------------------------------

/// Where the innermost of the open braces are closed, the others are still open.
proof fn lemma_inner_braces(s: Seq<char>, p: int, inside: nat, outside: nat)
    requires
        0 <= p <= s.len(),
        inside >= 1,
        outside >= 1,
        code_end(s, p, inside) is Some,
    ensures
        code_end(s, p, inside + outside) == code_end(s, code_end(s, p, inside)->0, outside),
    decreases s.len() - p,
{
    if p < s.len() {
        if s[p] == '{' {
            lemma_inner_braces(s, p + 1, inside + 1, outside);
        } else if s[p] == '}' {
            if inside > 1 {
                lemma_inner_braces(s, p + 1, (inside - 1) as nat, outside);
            }
        } else if s[p] == '\'' || s[p] == '"' {
            lemma_quoted_end(s, p + 1, s[p]);
            lemma_inner_braces(s, quoted_end(s, p + 1, s[p]), inside, outside);
        } else if at(s, p, '/', '*') {
            lemma_comment_end(s, p + 2);
            lemma_inner_braces(s, comment_end(s, p + 2), inside, outside);
        } else if at(s, p, '/', '/') {
            lemma_line_end(s, p + 2);
            lemma_inner_braces(s, line_end(s, p + 2), inside, outside);
        } else {
            lemma_inner_braces(s, p + 1, inside, outside);
        }
    }
}

/// A block inside a block is passed over as a whole: the outer one ends where it ends when
/// its code is read from behind the inner one on.
pub proof fn law_block_inside(s: Seq<char>, p: int)
    requires
        0 <= p < s.len(),
        s[p] == '{',
        code_end(s, p + 1, 1) is Some,
    ensures
        braced_end(s, p) == braced_end(s, braced_end(s, p + 1)),
{
    lemma_inner_braces(s, p + 1, 1, 1);
}

/// A closing brace ends a block, and what stands before it is the code.
pub proof fn law_block_end(s: Seq<char>, p: int)
    requires
        0 <= p < s.len(),
        s[p] == '}',
    ensures
        braced_end(s, p) == p + 1,
        braced_code(s, p) == Seq::<char>::empty(),
{
    assert(s.subrange(p, p) =~= Seq::<char>::empty());
}

/// The code of a block is the text between its braces; where nothing closes it, the rest of
/// the text.
pub proof fn law_block_code(s: Seq<char>, p: int)
    requires
        0 <= p <= s.len(),
    ensures
        code_end(s, p, 1) matches Some(e) ==> p < e <= s.len() && s[e - 1] == '}' && braced_end(s, p)
            == e && braced_code(s, p) == s.subrange(p, e - 1),
        code_end(s, p, 1) is None ==> braced_end(s, p) == s.len() && braced_code(s, p)
            == s.subrange(p, s.len() as int),
{
    lemma_code_end_brace(s, p, 1);
}

proof fn lemma_code_end_brace(s: Seq<char>, p: int, depth: nat)
    requires
        0 <= p <= s.len(),
    ensures
        code_end(s, p, depth) matches Some(e) ==> p < e <= s.len() && s[e - 1] == '}',
    decreases s.len() - p,
{
    if p < s.len() {
        if s[p] == '{' {
            lemma_code_end_brace(s, p + 1, depth + 1);
        } else if s[p] == '}' {
            if depth > 1 {
                lemma_code_end_brace(s, p + 1, (depth - 1) as nat);
            }
        } else if s[p] == '\'' || s[p] == '"' {
            lemma_quoted_end(s, p + 1, s[p]);
            lemma_code_end_brace(s, quoted_end(s, p + 1, s[p]), depth);
        } else if at(s, p, '/', '*') {
            lemma_comment_end(s, p + 2);
            lemma_code_end_brace(s, comment_end(s, p + 2), depth);
        } else if at(s, p, '/', '/') {
            lemma_line_end(s, p + 2);
            lemma_code_end_brace(s, line_end(s, p + 2), depth);
        } else {
            lemma_code_end_brace(s, p + 1, depth);
        }
    }
}

/// A character of code that is no brace and no quote and begins no comment is passed over.
pub proof fn law_block_plain(s: Seq<char>, p: int)
    requires
        0 <= p < s.len(),
        s[p] != '{' && s[p] != '}' && s[p] != '\'' && s[p] != '"',
        !both_at(s, p, '/', '*'),
        !both_at(s, p, '/', '/'),
    ensures
        braced_end(s, p) == braced_end(s, p + 1),
{
}

/// A quoted text in code is passed over up to its closing quote, whatever braces stand in
/// it.
pub proof fn law_block_quoted(s: Seq<char>, p: int, e: int)
    requires
        0 <= p < e,
        e < s.len(),
        s[p] == '\'' || s[p] == '"',
        closes(s, p + 1, e, s[p]),
    ensures
        braced_end(s, p) == braced_end(s, e + 1),
{
    law_quoted(s, p + 1, e, s[p]);
}

/// A comment in code is passed over, whatever braces stand in it.
pub proof fn law_block_comment(s: Seq<char>, p: int, e: int)
    requires
        0 <= p,
        p + 2 <= e < s.len(),
    ensures
        both_at(s, p, '/', '*') && both_at(s, e, '*', '/') && (forall|k: int|
            p + 2 <= k < e ==> !#[trigger] both_at(s, k, '*', '/')) ==> braced_end(s, p)
            == braced_end(s, e + 2),
        both_at(s, p, '/', '/') && s[e] == '\n' && (forall|k: int|
            p + 2 <= k < e ==> #[trigger] s[k] != '\n') ==> braced_end(s, p) == braced_end(s, e + 1),
{
    law_find_both(s, p + 2, '*', '/');
    let f = find2(s, p + 2, '*', '/');
    if both_at(s, p, '/', '*') && both_at(s, e, '*', '/') && (forall|k: int|
        p + 2 <= k < e ==> !#[trigger] both_at(s, k, '*', '/')) {
        if f < e {
            assert(both_at(s, f, '*', '/'));
        }
        if e < f {
            assert(!both_at(s, e, '*', '/'));
        }
        assert(comment_end(s, p + 2) == e + 2);
    }
    law_find(s, p + 2, '\n');
    let l = find(s, p + 2, '\n');
    if both_at(s, p, '/', '/') && s[e] == '\n' && (forall|k: int|
        p + 2 <= k < e ==> #[trigger] s[k] != '\n') {
        if l < e {
            assert(s[l] != '\n');
        }
        if e < l {
            assert(s[e] != '\n');
        }
        assert(line_end(s, p + 2) == e + 1);
    }
}

/// Lines are counted from one, and a line feed ends a line.
pub proof fn law_lines(s: Seq<char>, p: int)
    requires
        0 <= p < s.len(),
    ensures
        line_of(s, 0) == 1,
        line_of(s, p + 1) == line_of(s, p) + if s[p] == '\n' {
            1int
        } else {
            0
        },
{
    assert(s.take(0) =~= Seq::<char>::empty());
    assert(s.take(p + 1).drop_last() =~= s.take(p));
    assert(s.take(p + 1).last() == s[p]);
}

/// A tag is what stands in angle brackets, up to the first that closes.
pub proof fn law_tag(s: Seq<char>, p: int, f: int)
    requires
        0 <= p <= s.len(),
        skip(s, p) < f < s.len(),
        s[skip(s, p)] == '<',
        s[f] == '>',
        forall|k: int| skip(s, p) < k < f ==> #[trigger] s[k] != '>',
    ensures
        tag_at(s, p) == Some(s.subrange(skip(s, p) + 1, f)),
        tag_end(s, p) == f + 1,
{
    lemma_skip(s, p);
    let q = skip(s, p);
    law_find(s, q + 1, '>');
    let e = find(s, q + 1, '>');
    if e < f {
        assert(s[e] != '>');
    }
    if f < e {
        assert(s[f] != '>');
    }
}

/// Where no angle bracket opens, there is no tag.
pub proof fn law_no_tag(s: Seq<char>, p: int)
    requires
        0 <= p <= s.len(),
        skip(s, p) < s.len() ==> s[skip(s, p)] != '<',
    ensures
        tag_at(s, p) is None,
        tag_end(s, p) == skip(s, p),
{
    lemma_skip(s, p);
}

// ---------------------------------------------------------------------------
// Classes of characters
// ---------------------------------------------------------------------------

/// The classes of characters by their codes: white space is space, tab, line feed, form feed
/// and carriage return; a name begins with a letter or an underscore, and holds digits and
/// dots too.
pub proof fn law_classes(c: char)
    ensures
        is_space(c) <==> c as u32 == 32 || c as u32 == 9 || c as u32 == 10 || c as u32 == 12
            || c as u32 == 13,
        is_blank(c) <==> c as u32 == 32 || c as u32 == 9 || c as u32 == 10 || c as u32 == 13,
        is_digit(c) <==> 48 <= c as u32 <= 57,
        is_hex(c) <==> 48 <= c as u32 <= 57 || 65 <= c as u32 <= 70 || 97 <= c as u32 <= 102,
        is_ident_start(c) <==> 65 <= c as u32 <= 90 || 97 <= c as u32 <= 122 || c as u32 == 95,
        is_ident(c) <==> is_ident_start(c) || is_digit(c) || c as u32 == 46,
{
}

} // verus!
