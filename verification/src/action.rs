//! The code of rules: what stands in it for values and locations on the stack.

use crate::lexer::{at1, digits_end, find, lemma_digits_end, lemma_find, past};
use crate::text::{chars_of, dec_int, digit, is_digit, number_or_zero, push_i32, read_digits};
use vstd::prelude::*;

verus! {

/// The number that is written at `p`: digits, with a minus sign before them or not.
pub open spec fn signed_at(s: Seq<char>, p: int) -> int {
    if at1(s, p, '-') {
        -number_or_zero(s.subrange(p + 1, digits_end(s, p + 1)), 10)
    } else {
        number_or_zero(s.subrange(p, digits_end(s, p)), 10) as int
    }
}

/// Where the number ends that is written at `p`.
pub open spec fn signed_end(s: Seq<char>, p: int) -> int {
    if at1(s, p, '-') {
        digits_end(s, p + 1)
    } else {
        digits_end(s, p)
    }
}

/// Whether a digit stands at `p`.
pub open spec fn digit_at(s: Seq<char>, p: int) -> bool {
    0 <= p < s.len() && is_digit(s[p])
}

/// The C expression for the value of the symbol with the given number.
pub open spec fn value_text(n: int) -> Seq<char> {
    "yyvs[yyssp - yylen + "@ + dec_int(n) + "]"@
}

/// The C expression for the location of the symbol with the given number.
pub open spec fn location_text(n: int) -> Seq<char> {
    "yylsp[yyssp - yylen + "@ + dec_int(n) + "]"@
}

/// What is written for the reference behind the tag that begins with `<` at `p`, and
/// where it ends. A tag with no reference behind it is left out.
pub open spec fn tagged(s: Seq<char>, p: int) -> (Seq<char>, int) {
    let q = past(s, find(s, p + 1, '>'), 1);
    if at1(s, q, '$') {
        ("yyval"@, q + 1)
    } else if digit_at(s, q) || at1(s, q, '-') {
        (value_text(signed_at(s, q)), signed_end(s, q))
    } else {
        (Seq::empty(), q)
    }
}

/// What is written for what stands at `p`, and where that ends: `$$` is the value of the
/// left-hand side, `$n` and `$-n` those of symbols, both with a tag between or not; `@$`
/// and `@n` are locations. Any other character is itself.
pub open spec fn piece(s: Seq<char>, p: int) -> (Seq<char>, int) {
    if s[p] == '$' && p + 1 < s.len() {
        if s[p + 1] == '$' {
            ("yyval"@, p + 2)
        } else if digit_at(s, p + 1) || (s[p + 1] == '-' && digit_at(s, p + 2)) {
            (value_text(signed_at(s, p + 1)), signed_end(s, p + 1))
        } else if s[p + 1] == '<' {
            tagged(s, p + 1)
        } else {
            (seq![s[p]], p + 1)
        }
    } else if s[p] == '@' && p + 1 < s.len() {
        if s[p + 1] == '$' {
            ("yyloc"@, p + 2)
        } else if digit_at(s, p + 1) {
            (
                location_text(number_or_zero(s.subrange(p + 1, digits_end(s, p + 1)), 10) as int),
                digits_end(s, p + 1),
            )
        } else {
            (seq![s[p]], p + 1)
        }
    } else {
        (seq![s[p]], p + 1)
    }
}

/// What the code from `p` on is written as.
pub open spec fn transformed(s: Seq<char>, p: int) -> Seq<char>
    decreases s.len() - p,
{
    if p < 0 || p >= s.len() {
        Seq::empty()
    } else {
        proof {
            lemma_piece(s, p);
        }
        piece(s, p).0 + transformed(s, piece(s, p).1)
    }
}

proof fn lemma_signed_end(s: Seq<char>, p: int)
    requires
        0 <= p < s.len(),
        digit_at(s, p) || at1(s, p, '-'),
    ensures
        p < signed_end(s, p) <= s.len(),
{
    if at1(s, p, '-') {
        lemma_digits_end(s, p + 1);
    } else {
        lemma_digits_end(s, p + 1);
        assert(digits_end(s, p) == digits_end(s, p + 1));
    }
}

/// Each piece takes at least one character.
pub proof fn lemma_piece(s: Seq<char>, p: int)
    requires
        0 <= p < s.len(),
    ensures
        p < piece(s, p).1 <= s.len(),
{
    if p + 1 < s.len() {
        if digit_at(s, p + 1) || (s[p + 1] == '-' && digit_at(s, p + 2)) {
            lemma_signed_end(s, p + 1);
            lemma_digits_end(s, p + 1);
        } else if s[p + 1] == '<' {
            lemma_find(s, p + 2, '>');
            let q = past(s, find(s, p + 2, '>'), 1);
            if digit_at(s, q) || at1(s, q, '-') {
                lemma_signed_end(s, q);
            }
        }
    }
}

/// Where the digits end that begin at `p`.
fn skip_digits(chars: &Vec<char>, p: usize) -> (e: usize)
    requires
        p <= chars@.len(),
    ensures
        e == digits_end(chars@, p as int),
        p <= e <= chars@.len(),
{
    let mut e: usize = p;
    while e < chars.len() && digit(chars[e])
        invariant
            p <= e <= chars@.len(),
            digits_end(chars@, e as int) == digits_end(chars@, p as int),
        decreases chars@.len() - e,
    {
        e += 1;
    }
    e
}

/// Writes the C expression for the value whose number is written at `p`, and hands back
/// where the number ends.
fn push_value(out: &mut String, chars: &Vec<char>, p: usize) -> (e: usize)
    requires
        p < chars@.len(),
    ensures
        final(out)@ == old(out)@ + value_text(signed_at(chars@, p as int)),
        e == signed_end(chars@, p as int),
        p <= e <= chars@.len(),
{
    proof {
        assert(chars@.len() == chars.len());
    }
    let negative: bool = chars[p] == '-';
    let start: usize = if negative {
        p + 1
    } else {
        p
    };
    let e: usize = skip_digits(chars, start);
    let n: i32 = read_digits(chars, start, e, 10);
    let signed: i32 = if negative {
        -n
    } else {
        n
    };
    let mut t: String = "yyvs[yyssp - yylen + ".to_owned();
    push_i32(&mut t, signed);
    t.append("]");
    out.append(t.as_str());
    e
}

/// Writes what is written for what stands at `p`, and hands back where that ends.
fn push_piece(out: &mut String, chars: &Vec<char>, p: usize) -> (e: usize)
    requires
        p < chars@.len(),
    ensures
        final(out)@ == old(out)@ + piece(chars@, p as int).0,
        e == piece(chars@, p as int).1,
{
    let len: usize = chars.len();
    let ghost s = chars@;
    let ghost before = out@;
    if chars[p] == '$' && p + 1 < len {
        let c: char = chars[p + 1];
        if c == '$' {
            out.append("yyval");
            return p + 2;
        } else if digit(c) || (c == '-' && p + 2 < len && digit(chars[p + 2])) {
            return push_value(out, chars, p + 1);
        } else if c == '<' {
            let mut q: usize = p + 2;
            while q < len && chars[q] != '>'
                invariant
                    p + 2 <= q <= len,
                    len == chars@.len(),
                    find(chars@, q as int, '>') == find(chars@, p + 2, '>'),
                decreases len - q,
            {
                q += 1;
            }
            if q < len {
                q += 1;
            }
            if q < len && chars[q] == '$' {
                out.append("yyval");
                return q + 1;
            } else if q < len && (digit(chars[q]) || chars[q] == '-') {
                return push_value(out, chars, q);
            } else {
                proof {
                    assert(out@ =~= before + Seq::<char>::empty());
                }
                return q;
            }
        }
    } else if chars[p] == '@' && p + 1 < len {
        let c: char = chars[p + 1];
        if c == '$' {
            out.append("yyloc");
            return p + 2;
        } else if digit(c) {
            let e: usize = skip_digits(chars, p + 1);
            let n: i32 = read_digits(chars, p + 1, e, 10);
            let mut t: String = "yylsp[yyssp - yylen + ".to_owned();
            push_i32(&mut t, n);
            t.append("]");
            out.append(t.as_str());
            return e;
        }
    }
    out.push(chars[p]);
    proof {
        assert(out@ =~= before + seq![s[p as int]]);
    }
    p + 1
}

/// The code of a rule with C expressions for values and locations.
pub fn transform(action: &str) -> (r: String)
    ensures
        r@ == transformed(action@, 0),
{
    let chars: Vec<char> = chars_of(action);
    let mut result: String = String::new();
    let mut i: usize = 0;
    proof {
        assert(result@ + transformed(chars@, 0) =~= transformed(chars@, 0));
    }
    while i < chars.len()
        invariant
            i <= chars@.len(),
            chars@ == action@,
            result@ + transformed(chars@, i as int) == transformed(action@, 0),
        decreases chars@.len() - i,
    {
        let ghost before = result@;
        let ghost p = i as int;
        proof {
            lemma_piece(chars@, p);
        }
        i = push_piece(&mut result, &chars, i);
        proof {
            let (a, e) = piece(chars@, p);
            assert((before + a) + transformed(chars@, e) =~= before + (a + transformed(
                chars@,
                e,
            )));
        }
    }
    proof {
        assert(result@ + transformed(chars@, i as int) =~= result@);
    }
    result
}

} // verus!
