//! The code of rules is translated piece by piece, from its beginning to its end.

use crate::action::{lemma_piece, piece, tagged, transformed};
use crate::lexer::{digits_end, find, lemma_digits_end, lemma_find, past};
use crate::text::{dec, dec_int, digits_value, is_digit};
use vstd::prelude::*;

verus! {

// ---------------------------------------------------------------------------
// What stands before a position does not matter
// ---------------------------------------------------------------------------

proof fn lemma_digits_end_behind(a: Seq<char>, b: Seq<char>, q: int)
    requires
        0 <= q <= b.len(),
    ensures
        digits_end(a + b, a.len() + q) == a.len() + digits_end(b, q),
    decreases b.len() - q,
{
    if q < b.len() {
        assert((a + b)[a.len() + q] == b[q]);
        lemma_digits_end_behind(a, b, q + 1);
    }
}

proof fn lemma_find_behind(a: Seq<char>, b: Seq<char>, q: int, c: char)
    requires
        0 <= q <= b.len(),
    ensures
        find(a + b, a.len() + q, c) == a.len() + find(b, q, c),
    decreases b.len() - q,
{
    if q < b.len() {
        assert((a + b)[a.len() + q] == b[q]);
        lemma_find_behind(a, b, q + 1, c);
    }
}

proof fn lemma_digits_text_behind(a: Seq<char>, b: Seq<char>, q: int)
    requires
        0 <= q <= b.len(),
    ensures
        (a + b).subrange(a.len() + q, digits_end(a + b, a.len() + q)) == b.subrange(
            q,
            digits_end(b, q),
        ),
{
    lemma_digits_end_behind(a, b, q);
    lemma_digits_end(b, q);
    assert((a + b).subrange(a.len() + q, digits_end(a + b, a.len() + q)) =~= b.subrange(
        q,
        digits_end(b, q),
    ));
}

proof fn lemma_piece_behind(a: Seq<char>, b: Seq<char>, q: int)
    requires
        0 <= q < b.len(),
    ensures
        piece(a + b, a.len() + q).0 == piece(b, q).0,
        piece(a + b, a.len() + q).1 == a.len() + piece(b, q).1,
{
    let s = a + b;
    let p = a.len() + q;
    assert(s[p] == b[q]);
    if q + 1 < b.len() {
        assert(s[p + 1] == b[q + 1]);
        lemma_digits_end_behind(a, b, q + 1);
        lemma_digits_text_behind(a, b, q + 1);
        lemma_find_behind(a, b, q + 1, '>');
        if q + 2 < b.len() {
            assert(s[p + 2] == b[q + 2]);
        }
        lemma_digits_end_behind(a, b, q + 2);
        lemma_digits_text_behind(a, b, q + 2);
        lemma_find_behind(a, b, q + 2, '>');
        lemma_find(b, q + 2, '>');
        let e = past(b, find(b, q + 2, '>'), 1);
        assert(past(s, find(s, p + 2, '>'), 1) == a.len() + e);
        if e < b.len() {
            assert(s[a.len() + e] == b[e]);
            lemma_digits_end_behind(a, b, e);
            lemma_digits_text_behind(a, b, e);
            lemma_digits_end_behind(a, b, e + 1);
            lemma_digits_text_behind(a, b, e + 1);
        }
        assert(tagged(s, p + 1).0 == tagged(b, q + 1).0);
        assert(tagged(s, p + 1).1 == a.len() + tagged(b, q + 1).1);
    }
}

proof fn lemma_behind(a: Seq<char>, b: Seq<char>, q: int)
    requires
        0 <= q <= b.len(),
    ensures
        transformed(a + b, a.len() + q) == transformed(b, q),
    decreases b.len() - q,
{
    if q < b.len() {
        lemma_piece(b, q);
        lemma_piece_behind(a, b, q);
        lemma_behind(a, b, piece(b, q).1);
    }
}

/// Where a piece at the beginning ends behind `a`, the rest is translated by itself.
proof fn lemma_first_piece(a: Seq<char>, b: Seq<char>, out: Seq<char>)
    requires
        a.len() > 0,
        piece(a + b, 0) == (out, a.len() as int),
    ensures
        transformed(a + b, 0) == out + transformed(b, 0),
{
    lemma_behind(a, b, 0);
}

/// All digits up to the end of `ds` are taken, and no more.
proof fn lemma_digits(a: Seq<char>, ds: Seq<char>, b: Seq<char>, k: int)
    requires
        0 <= k <= ds.len(),
        forall|i: int| 0 <= i < ds.len() ==> is_digit(#[trigger] ds[i]),
        b.len() == 0 || !is_digit(b[0]),
    ensures
        digits_end(a + ds + b, a.len() + k) == a.len() + ds.len(),
    decreases ds.len() - k,
{
    let s = a + ds + b;
    if k < ds.len() {
        assert(s[a.len() + k] == ds[k]);
        lemma_digits(a, ds, b, k + 1);
    } else if b.len() > 0 {
        assert(s[a.len() + ds.len() as int] == b[0]);
    }
}

/// What is between the beginning and the first `>` is passed over.
proof fn lemma_tag(a: Seq<char>, tag: Seq<char>, b: Seq<char>, k: int)
    requires
        0 <= k <= tag.len(),
        !tag.contains('>'),
    ensures
        find(a + tag + (seq!['>'] + b), a.len() + k, '>') == a.len() + tag.len(),
    decreases tag.len() - k,
{
    let s = a + tag + (seq!['>'] + b);
    if k < tag.len() {
        assert(s[a.len() + k] == tag[k]);
        lemma_tag(a, tag, b, k + 1);
    } else {
        assert(s[a.len() + tag.len() as int] == '>');
    }
}

// ---------------------------------------------------------------------------
// The laws
// ---------------------------------------------------------------------------

/// Whether the characters are decimal digits that denote `n`.
pub open spec fn denotes(ds: Seq<char>, n: nat) -> bool {
    &&& ds.len() > 0
    &&& forall|i: int| 0 <= i < ds.len() ==> is_digit(#[trigger] ds[i])
    &&& digits_value(ds, 10) == n
}

/// The number where it has room in 32 bits with a sign, else zero.
pub open spec fn fitting(n: nat) -> nat {
    if n <= i32::MAX {
        n
    } else {
        0
    }
}

/// Code that holds neither a dollar sign nor an at sign is written as it stands, whatever
/// stands behind it.
pub proof fn law_code_as_it_stands(a: Seq<char>, b: Seq<char>)
    requires
        !a.contains('$'),
        !a.contains('@'),
    ensures
        transformed(a + b, 0) == a + transformed(b, 0),
    decreases a.len(),
{
    if a.len() == 0 {
        assert(a + b =~= b);
        assert(a + transformed(b, 0) =~= transformed(b, 0));
    } else {
        let c = seq![a[0]];
        let rest = a.skip(1);
        assert(a.contains(a[0]));
        assert forall|x: char| rest.contains(x) implies a.contains(x) by {
            let i = choose|i: int| 0 <= i < rest.len() && rest[i] == x;
            assert(a[i + 1] == x);
        }
        assert(a + b =~= c + (rest + b));
        assert(piece(c + (rest + b), 0) == (c, 1int));
        lemma_first_piece(c, rest + b, c);
        law_code_as_it_stands(rest, b);
        assert(c + (rest + transformed(b, 0)) =~= a + transformed(b, 0));
    }
}

/// `$$` is the value of the left-hand side, with a tag between the signs or not.
pub proof fn law_code_left(tag: Seq<char>, b: Seq<char>)
    requires
        !tag.contains('>'),
    ensures
        transformed(seq!['$', '$'] + b, 0) == "yyval"@ + transformed(b, 0),
        transformed(seq!['$', '<'] + tag + seq!['>', '$'] + b, 0) == "yyval"@ + transformed(b, 0),
{
    let a = seq!['$', '$'];
    assert((a + b)[0] == '$' && (a + b)[1] == '$');
    lemma_first_piece(a, b, "yyval"@);
    let h = seq!['$', '<'];
    let t = h + tag + seq!['>', '$'];
    let s = t + b;
    assert(s =~= h + tag + (seq!['>'] + (seq!['$'] + b)));
    lemma_tag(h, tag, seq!['$'] + b, 0);
    assert(s[0] == '$' && s[1] == '<');
    assert(s[tag.len() + 3int] == '$');
    lemma_first_piece(t, b, "yyval"@);
}

/// `$n` is the value of symbol number `n` of the right-hand side, with a tag between the
/// sign and the number or not. A number that has no room in 32 bits is zero.
pub proof fn law_code_value(tag: Seq<char>, ds: Seq<char>, n: nat, b: Seq<char>)
    requires
        !tag.contains('>'),
        denotes(ds, n),
        b.len() == 0 || !is_digit(b[0]),
    ensures
        ({
            let value = "yyvs[yyssp - yylen + "@ + dec(fitting(n)) + "]"@;
            &&& transformed(seq!['$'] + ds + b, 0) == value + transformed(b, 0)
            &&& transformed(seq!['$', '<'] + tag + seq!['>'] + ds + b, 0) == value + transformed(
                b,
                0,
            )
        }),
{
    let value = "yyvs[yyssp - yylen + "@ + dec(fitting(n)) + "]"@;
    let a = seq!['$'];
    lemma_digits(a, ds, b, 0);
    let s = a + ds + b;
    assert(s[1] == ds[0]);
    assert(s.subrange(1, 1int + ds.len()) =~= ds);
    lemma_first_piece(a + ds, b, value);
    let h = seq!['$', '<'];
    let k = h + tag + seq!['>'];
    lemma_digits(k, ds, b, 0);
    let u = k + ds + b;
    assert(u =~= h + tag + (seq!['>'] + (ds + b)));
    lemma_tag(h, tag, ds + b, 0);
    assert(u[0] == '$' && u[1] == '<');
    assert(u[tag.len() + 3int] == ds[0]);
    assert(u.subrange(tag.len() + 3int, tag.len() + 3int + ds.len()) =~= ds);
    lemma_first_piece(k + ds, b, value);
}

/// `$-n` is the value of what stands below the right-hand side on the stack, with a tag
/// between or not.
pub proof fn law_code_below(tag: Seq<char>, ds: Seq<char>, n: nat, b: Seq<char>)
    requires
        !tag.contains('>'),
        denotes(ds, n),
        b.len() == 0 || !is_digit(b[0]),
    ensures
        ({
            let value = "yyvs[yyssp - yylen + "@ + dec_int(-fitting(n)) + "]"@;
            &&& transformed(seq!['$', '-'] + ds + b, 0) == value + transformed(b, 0)
            &&& transformed(seq!['$', '<'] + tag + seq!['>', '-'] + ds + b, 0) == value
                + transformed(b, 0)
        }),
{
    let value = "yyvs[yyssp - yylen + "@ + dec_int(-fitting(n)) + "]"@;
    let a = seq!['$', '-'];
    lemma_digits(a, ds, b, 0);
    let s = a + ds + b;
    assert(s[0] == '$' && s[1] == '-' && s[2] == ds[0]);
    assert(s.subrange(2, 2int + ds.len()) =~= ds);
    lemma_first_piece(a + ds, b, value);
    let h = seq!['$', '<'];
    let k = h + tag + seq!['>', '-'];
    lemma_digits(k, ds, b, 0);
    let u = k + ds + b;
    assert(u =~= h + tag + (seq!['>'] + (seq!['-'] + ds + b)));
    lemma_tag(h, tag, seq!['-'] + ds + b, 0);
    assert(u[0] == '$' && u[1] == '<');
    assert(u[tag.len() + 3int] == '-');
    assert(u.subrange(tag.len() + 4int, tag.len() + 4int + ds.len()) =~= ds);
    lemma_first_piece(k + ds, b, value);
}

/// `@$` is the location of the left-hand side and `@n` that of symbol number `n`.
pub proof fn law_code_location(ds: Seq<char>, n: nat, b: Seq<char>)
    requires
        denotes(ds, n),
        b.len() == 0 || !is_digit(b[0]),
    ensures
        transformed(seq!['@', '$'] + b, 0) == "yyloc"@ + transformed(b, 0),
        transformed(seq!['@'] + ds + b, 0) == "yylsp[yyssp - yylen + "@ + dec(fitting(n)) + "]"@
            + transformed(b, 0),
{
    let a = seq!['@', '$'];
    assert((a + b)[0] == '@' && (a + b)[1] == '$');
    lemma_first_piece(a, b, "yyloc"@);
    let h = seq!['@'];
    lemma_digits(h, ds, b, 0);
    let s = h + ds + b;
    assert(s[0] == '@' && s[1] == ds[0]);
    assert(s.subrange(1, 1int + ds.len()) =~= ds);
    lemma_first_piece(h + ds, b, "yylsp[yyssp - yylen + "@ + dec(fitting(n)) + "]"@);
}

/// A dollar sign or an at sign behind which no reference stands is itself.
pub proof fn law_code_sign(b: Seq<char>)
    ensures
        b.len() == 0 || !(b[0] == '$' || b[0] == '<' || is_digit(b[0]) || (b[0] == '-' && b.len()
            > 1 && is_digit(b[1]))) ==> transformed(seq!['$'] + b, 0) == seq!['$'] + transformed(
            b,
            0,
        ),
        b.len() == 0 || !(b[0] == '$' || is_digit(b[0])) ==> transformed(seq!['@'] + b, 0)
            == seq!['@'] + transformed(b, 0),
{
    let a = seq!['$'];
    let s = a + b;
    if b.len() > 0 {
        assert(s[1] == b[0]);
    }
    if b.len() > 1 {
        assert(s[2] == b[1]);
    }
    if b.len() == 0 || !(b[0] == '$' || b[0] == '<' || is_digit(b[0]) || (b[0] == '-' && b.len() > 1
        && is_digit(b[1]))) {
        lemma_first_piece(a, b, a);
    }
    let c = seq!['@'];
    let u = c + b;
    if b.len() > 0 {
        assert(u[1] == b[0]);
    }
    if b.len() == 0 || !(b[0] == '$' || is_digit(b[0])) {
        lemma_first_piece(c, b, c);
    }
}

/// A tag behind a dollar sign with no reference behind it is left out.
pub proof fn law_code_tag(tag: Seq<char>, b: Seq<char>)
    requires
        !tag.contains('>'),
        b.len() == 0 || !(b[0] == '$' || b[0] == '-' || is_digit(b[0])),
    ensures
        transformed(seq!['$', '<'] + tag + seq!['>'] + b, 0) == transformed(b, 0),
{
    let h = seq!['$', '<'];
    let k = h + tag + seq!['>'];
    let s = k + b;
    assert(s =~= h + tag + (seq!['>'] + b));
    lemma_tag(h, tag, b, 0);
    assert(s[0] == '$' && s[1] == '<');
    if b.len() > 0 {
        assert(s[tag.len() + 3int] == b[0]);
    }
    lemma_first_piece(k, b, Seq::empty());
    assert(Seq::<char>::empty() + transformed(b, 0) =~= transformed(b, 0));
}

/// A tag behind a dollar sign that nothing closes takes the rest of the code, and nothing is
/// written for it.
pub proof fn law_code_open_tag(tag: Seq<char>)
    requires
        !tag.contains('>'),
    ensures
        transformed(seq!['$', '<'] + tag, 0) == Seq::<char>::empty(),
{
    let s = seq!['$', '<'] + tag;
    lemma_find_none(s, 2, tag);
    assert(s[0] == '$' && s[1] == '<');
    assert(piece(s, 0) == (Seq::<char>::empty(), s.len() as int));
    assert(transformed(s, s.len() as int) =~= Seq::<char>::empty());
    assert(transformed(s, 0) =~= Seq::<char>::empty());
}

proof fn lemma_find_none(s: Seq<char>, k: int, tag: Seq<char>)
    requires
        s == seq!['$', '<'] + tag,
        !tag.contains('>'),
        2 <= k <= s.len(),
    ensures
        find(s, k, '>') == s.len(),
    decreases s.len() - k,
{
    if k < s.len() {
        assert(s[k] == tag[k - 2]);
        lemma_find_none(s, k + 1, tag);
    }
}

} // verus!
