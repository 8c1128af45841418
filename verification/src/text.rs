//! Characters, numbers and pieces of text.

use vstd::prelude::*;

verus! {

/// `String::push` appends the given character to the end of the string.
pub assume_specification[ String::push ](s: &mut String, ch: char)
    ensures
        final(s)@ == old(s)@.push(ch),
;

// ---------------------------------------------------------------------------
// Character classes
// ---------------------------------------------------------------------------

/// ASCII white space: space, tab, line feed, form feed and carriage return.
pub open spec fn is_space(c: char) -> bool {
    c == ' ' || c == '\t' || c == '\n' || c == '\x0C' || c == '\r'
}

/// White space that may stand between a rule's name and its colon.
pub open spec fn is_blank(c: char) -> bool {
    c == ' ' || c == '\t' || c == '\n' || c == '\r'
}

/// An ASCII letter.
pub open spec fn is_letter(c: char) -> bool {
    ('a' <= c && c <= 'z') || ('A' <= c && c <= 'Z')
}

/// An ASCII decimal digit.
pub open spec fn is_digit(c: char) -> bool {
    '0' <= c && c <= '9'
}

/// An ASCII hexadecimal digit.
pub open spec fn is_hex(c: char) -> bool {
    is_digit(c) || ('a' <= c && c <= 'f') || ('A' <= c && c <= 'F')
}

/// A character that an identifier may begin with.
pub open spec fn is_ident_start(c: char) -> bool {
    is_letter(c) || c == '_'
}

/// A character that an identifier may hold.
pub open spec fn is_ident(c: char) -> bool {
    is_letter(c) || is_digit(c) || c == '_' || c == '.'
}

/// Whether the character is ASCII white space.
pub fn space(c: char) -> (b: bool)
    ensures
        b == is_space(c),
{
    c == ' ' || c == '\t' || c == '\n' || c == '\x0C' || c == '\r'
}

/// Whether the character is white space that may stand between a rule's name and its colon.
pub fn blank(c: char) -> (b: bool)
    ensures
        b == is_blank(c),
{
    c == ' ' || c == '\t' || c == '\n' || c == '\r'
}

/// Whether the character is an ASCII letter.
pub fn letter(c: char) -> (b: bool)
    ensures
        b == is_letter(c),
{
    ('a' <= c && c <= 'z') || ('A' <= c && c <= 'Z')
}

/// Whether the character is an ASCII decimal digit.
pub fn digit(c: char) -> (b: bool)
    ensures
        b == is_digit(c),
{
    '0' <= c && c <= '9'
}

/// Whether the character is an ASCII hexadecimal digit.
pub fn hex(c: char) -> (b: bool)
    ensures
        b == is_hex(c),
{
    digit(c) || ('a' <= c && c <= 'f') || ('A' <= c && c <= 'F')
}

/// Whether the character is one that an identifier may begin with.
pub fn ident_start(c: char) -> (b: bool)
    ensures
        b == is_ident_start(c),
{
    letter(c) || c == '_'
}

/// Whether the character is one that an identifier may hold.
pub fn ident(c: char) -> (b: bool)
    ensures
        b == is_ident(c),
{
    letter(c) || digit(c) || c == '_' || c == '.'
}

// ---------------------------------------------------------------------------
// Strings
// ---------------------------------------------------------------------------

/// The characters of `s`, in order.
pub fn chars_of(s: &str) -> (v: Vec<char>)
    ensures
        v@ == s@,
{
    let mut v: Vec<char> = Vec::new();
    for c in it: s.chars()
        invariant
            v@ == it.seq().take(it.index() as int),
    {
        v.push(c);
    }
    v
}

/// The text of `chars` from `from` up to `to`.
pub fn slice_text(chars: &Vec<char>, from: usize, to: usize) -> (s: String)
    requires
        from <= to <= chars@.len(),
    ensures
        s@ == chars@.subrange(from as int, to as int),
{
    let mut s = String::new();
    let mut i: usize = from;
    while i < to
        invariant
            from <= i <= to <= chars@.len(),
            s@ == chars@.subrange(from as int, i as int),
        decreases to - i,
    {
        s.push(chars[i]);
        i += 1;
    }
    s
}

/// Whether the string reads as the given text.
pub fn reads(s: &String, text: &str) -> (b: bool)
    ensures
        b == (s@ == text@),
{
    let t: String = text.to_owned();
    *s == t
}

/// The optional text behind an optional string.
pub open spec fn opt_text(s: Option<String>) -> Option<Seq<char>> {
    match s {
        Some(t) => Some(t@),
        None => None,
    }
}

/// A copy of an optional string.
pub fn copy_opt(s: &Option<String>) -> (t: Option<String>)
    ensures
        opt_text(t) == opt_text(*s),
{
    match s {
        Some(x) => Some(x.clone()),
        None => None,
    }
}

// ---------------------------------------------------------------------------
// Decimal notation
// ---------------------------------------------------------------------------

/// The character of the decimal digit `d`.
pub open spec fn digit_char(d: nat) -> char {
    (48 + d) as char
}

/// `n` in decimal notation, without leading zeros.
pub open spec fn dec(n: nat) -> Seq<char>
    decreases n,
{
    if n < 10 {
        seq![digit_char(n)]
    } else {
        dec(n / 10).push(digit_char(n % 10))
    }
}

/// `i` in decimal notation, with a minus sign where it is negative.
pub open spec fn dec_int(i: int) -> Seq<char> {
    if i < 0 {
        seq!['-'] + dec((-i) as nat)
    } else {
        dec(i as nat)
    }
}

/// `s` with spaces put before it until it is `width` characters long.
pub open spec fn pad_left(s: Seq<char>, width: nat) -> Seq<char>
    decreases width - s.len(),
{
    if s.len() >= width {
        s
    } else {
        pad_left(seq![' '] + s, width)
    }
}

fn push_dec(out: &mut String, n: u64)
    ensures
        final(out)@ == old(out)@ + dec(n as nat),
    decreases n,
{
    let ghost before = out@;
    if n >= 10 {
        push_dec(out, n / 10);
        proof {
            assert((n / 10) as nat == (n as nat) / 10);
            assert((n % 10) as nat == (n as nat) % 10);
        }
    }
    let d: u8 = (n % 10) as u8;
    let c: char = (48 + d) as char;
    out.push(c);
    proof {
        assert(c == digit_char((n as nat) % 10));
        assert(out@ =~= before + dec(n as nat));
    }
}

/// Appends `n` in decimal notation.
pub fn push_usize(out: &mut String, n: usize)
    ensures
        final(out)@ == old(out)@ + dec(n as nat),
{
    push_dec(out, n as u64);
}

/// Appends `i` in decimal notation.
pub fn push_i32(out: &mut String, i: i32)
    ensures
        final(out)@ == old(out)@ + dec_int(i as int),
{
    let ghost before = out@;
    if i < 0 {
        out.push('-');
        push_dec(out, (-(i as i64)) as u64);
        proof {
            assert(out@ =~= before + dec_int(i as int));
        }
    } else {
        push_dec(out, i as u64);
    }
}

/// Appends `n` in decimal notation, right-aligned in a field of four characters.
pub fn push_padded(out: &mut String, n: usize)
    ensures
        final(out)@ == old(out)@ + pad_left(dec(n as nat), 4),
{
    let mut t = String::new();
    push_usize(&mut t, n);
    proof {
        assert(t@ =~= dec(n as nat));
    }
    let mut len: usize = t.as_str().unicode_len();
    while len < 4
        invariant
            len == t@.len(),
            pad_left(t@, 4) == pad_left(dec(n as nat), 4),
        decreases 4 - len,
    {
        let mut u = String::new();
        u.push(' ');
        u.append(t.as_str());
        proof {
            assert(u@ =~= seq![' '] + t@);
        }
        t = u;
        len += 1;
    }
    out.append(t.as_str());
}

// ---------------------------------------------------------------------------
// Reading numbers
// ---------------------------------------------------------------------------

/// The value of a hexadecimal digit.
pub open spec fn digit_value(c: char) -> nat {
    if is_digit(c) {
        (c as int - 48) as nat
    } else if 'a' <= c && c <= 'f' {
        (c as int - 97 + 10) as nat
    } else if 'A' <= c && c <= 'F' {
        (c as int - 65 + 10) as nat
    } else {
        0
    }
}

/// The number that the digits `s` denote in the given radix.
pub open spec fn digits_value(s: Seq<char>, radix: nat) -> nat
    decreases s.len(),
{
    if s.len() == 0 {
        0
    } else {
        digits_value(s.drop_last(), radix) * radix + digit_value(s.last())
    }
}

/// The number that the digits `s` denote, or zero where it does not fit in 32
/// bits with a sign (and for no digits at all).
pub open spec fn number_or_zero(s: Seq<char>, radix: nat) -> i32 {
    if digits_value(s, radix) <= i32::MAX {
        digits_value(s, radix) as i32
    } else {
        0
    }
}

proof fn lemma_prefix_value(s: Seq<char>, k: int, radix: nat)
    requires
        0 <= k <= s.len(),
        radix >= 1,
    ensures
        digits_value(s.take(k), radix) <= digits_value(s, radix),
    decreases s.len() - k,
{
    if k < s.len() {
        lemma_prefix_value(s, k + 1, radix);
        let t = s.take(k + 1);
        assert(t.drop_last() =~= s.take(k));
        let v = digits_value(s.take(k), radix);
        assert(v <= v * radix) by (nonlinear_arith)
            requires
                radix >= 1,
        ;
    } else {
        assert(s.take(k) =~= s);
    }
}

fn value_of_digit(c: char) -> (d: u64)
    ensures
        d == digit_value(c),
        d < 16,
{
    if digit(c) {
        (c as u32 as u64) - 48
    } else if 'a' <= c && c <= 'f' {
        (c as u32 as u64) - 97 + 10
    } else if 'A' <= c && c <= 'F' {
        (c as u32 as u64) - 65 + 10
    } else {
        0
    }
}

/// The number that the characters from `from` up to `to` denote, or zero where it
/// does not fit.
pub fn read_digits(chars: &Vec<char>, from: usize, to: usize, radix: u64) -> (v: i32)
    requires
        from <= to <= chars@.len(),
        1 <= radix <= 16,
    ensures
        v == number_or_zero(chars@.subrange(from as int, to as int), radix as nat),
{
    let ghost s = chars@.subrange(from as int, to as int);
    let mut acc: u64 = 0;
    let mut i: usize = from;
    while i < to
        invariant
            from <= i <= to <= chars@.len(),
            1 <= radix <= 16,
            s == chars@.subrange(from as int, to as int),
            acc == digits_value(s.take(i - from), radix as nat),
            acc <= i32::MAX,
        decreases to - i,
    {
        let d: u64 = value_of_digit(chars[i]);
        proof {
            let t = s.take(i - from + 1);
            assert(t.drop_last() =~= s.take(i - from));
            assert(t.last() == chars@[i as int]);
            assert(acc * radix <= i32::MAX * 16) by (nonlinear_arith)
                requires
                    0 <= acc <= i32::MAX,
                    1 <= radix <= 16,
            ;
            lemma_prefix_value(s, i - from + 1, radix as nat);
        }
        acc = acc * radix + d;
        if acc > 0x7fff_ffff {
            return 0;
        }
        i += 1;
    }
    proof {
        assert(s.take(to - from) =~= s);
    }
    acc as i32
}

// ---------------------------------------------------------------------------
// Putting pieces together
// ---------------------------------------------------------------------------

/// The pieces one after the other.
pub open spec fn cat(parts: Seq<Seq<char>>) -> Seq<char>
    decreases parts.len(),
{
    if parts.len() == 0 {
        Seq::empty()
    } else {
        cat(parts.drop_last()) + parts.last()
    }
}

/// The pieces one after the other, with `sep` between each and the next.
pub open spec fn join(parts: Seq<Seq<char>>, sep: Seq<char>) -> Seq<char>
    decreases parts.len(),
{
    if parts.len() == 0 {
        Seq::empty()
    } else if parts.len() == 1 {
        parts[0]
    } else {
        join(parts.drop_last(), sep) + sep + parts.last()
    }
}

/// How one more piece extends a text made by [`cat`].
pub proof fn lemma_cat_step(parts: Seq<Seq<char>>, i: int)
    requires
        0 <= i < parts.len(),
    ensures
        cat(parts.take(i + 1)) == cat(parts.take(i)) + parts[i],
{
    assert(parts.take(i + 1).drop_last() =~= parts.take(i));
}

/// How one more piece extends a text made by [`join`].
pub proof fn lemma_join_step(parts: Seq<Seq<char>>, sep: Seq<char>, i: int)
    requires
        0 <= i < parts.len(),
    ensures
        join(parts.take(i + 1), sep) == if i == 0 {
            parts[0]
        } else {
            join(parts.take(i), sep) + sep + parts[i]
        },
{
    assert(parts.take(i + 1).drop_last() =~= parts.take(i));
}

} // verus!
