//! The words of a grammar file.
//!
//! The specification of each word is a function from the text and a position in it to
//! the position where the word ends.

use crate::grammar::{empty_grammar, is_reserved, lemma_not_reserved, wf, Grammar};
use crate::text::{
    blank, chars_of, digit, hex, ident, is_blank, is_digit, is_hex, is_ident, is_space,
    number_or_zero, read_digits, slice_text, space,
};
use vstd::prelude::*;

verus! {

// ---------------------------------------------------------------------------
// Where words end
// ---------------------------------------------------------------------------

/// Whether the two characters `a` and `b` stand at `p`.
pub open spec fn at(s: Seq<char>, p: int, a: char, b: char) -> bool {
    0 <= p && p + 1 < s.len() && s[p] == a && s[p + 1] == b
}

/// Whether the character `a` stands at `p`.
pub open spec fn at1(s: Seq<char>, p: int, a: char) -> bool {
    0 <= p < s.len() && s[p] == a
}

/// The first position from `p` on where `c` stands, or the end of the text.
pub open spec fn find(s: Seq<char>, p: int, c: char) -> int
    decreases s.len() - p,
{
    if p >= s.len() {
        s.len() as int
    } else if s[p] == c {
        p
    } else {
        find(s, p + 1, c)
    }
}

/// The first position from `p` on where `a` and `b` stand, or the end of the text.
pub open spec fn find2(s: Seq<char>, p: int, a: char, b: char) -> int
    decreases s.len() - p,
{
    if p >= s.len() {
        s.len() as int
    } else if at(s, p, a, b) {
        p
    } else {
        find2(s, p + 1, a, b)
    }
}

/// The position behind `p`, or the end of the text.
pub open spec fn past(s: Seq<char>, p: int, n: int) -> int {
    if p + n <= s.len() {
        p + n
    } else {
        s.len() as int
    }
}

/// Where a comment ends whose inside begins at `p`: behind the next `*/`.
pub open spec fn comment_end(s: Seq<char>, p: int) -> int {
    past(s, find2(s, p, '*', '/'), 2)
}

/// Where the line ends that `p` is in: behind the next line feed.
pub open spec fn line_end(s: Seq<char>, p: int) -> int {
    past(s, find(s, p, '\n'), 1)
}

/// The first position from `p` on that is in neither white space nor a comment.
pub open spec fn skip(s: Seq<char>, p: int) -> int
    decreases s.len() - p,
{
    if p < 0 || p >= s.len() {
        p
    } else if is_space(s[p]) {
        skip(s, p + 1)
    } else if at(s, p, '/', '*') {
        proof {
            lemma_comment_end(s, p + 2);
        }
        skip(s, comment_end(s, p + 2))
    } else if at(s, p, '/', '/') {
        proof {
            lemma_line_end(s, p + 2);
        }
        skip(s, line_end(s, p + 2))
    } else {
        p
    }
}

/// The first position from `p` on that is in neither white space nor a comment in slash and
/// star, but no further than the first line feed outside such comments.
pub open spec fn skip_on_line(s: Seq<char>, p: int) -> int
    decreases s.len() - p,
{
    if p < 0 || p >= s.len() {
        p
    } else if is_space(s[p]) && s[p] != '\n' {
        skip_on_line(s, p + 1)
    } else if at(s, p, '/', '*') {
        proof {
            lemma_comment_end(s, p + 2);
        }
        skip_on_line(s, comment_end(s, p + 2))
    } else {
        p
    }
}

/// Where the identifier ends that begins at `p`.
pub open spec fn ident_end(s: Seq<char>, p: int) -> int
    decreases s.len() - p,
{
    if 0 <= p < s.len() && is_ident(s[p]) {
        ident_end(s, p + 1)
    } else {
        p
    }
}

/// Where the blanks end that begin at `p`.
pub open spec fn blanks_end(s: Seq<char>, p: int) -> int
    decreases s.len() - p,
{
    if 0 <= p < s.len() && is_blank(s[p]) {
        blanks_end(s, p + 1)
    } else {
        p
    }
}

/// Where the decimal digits end that begin at `p`.
pub open spec fn digits_end(s: Seq<char>, p: int) -> int
    decreases s.len() - p,
{
    if 0 <= p < s.len() && is_digit(s[p]) {
        digits_end(s, p + 1)
    } else {
        p
    }
}

/// Where the hexadecimal digits end that begin at `p`.
pub open spec fn hex_end(s: Seq<char>, p: int) -> int
    decreases s.len() - p,
{
    if 0 <= p < s.len() && is_hex(s[p]) {
        hex_end(s, p + 1)
    } else {
        p
    }
}

/// The first position from `p` on where white space stands, or the end of the text.
pub open spec fn word_end(s: Seq<char>, p: int) -> int
    decreases s.len() - p,
{
    if 0 <= p < s.len() && !is_space(s[p]) {
        word_end(s, p + 1)
    } else {
        p
    }
}

/// Whether a number in hexadecimal notation begins at `p`.
pub open spec fn at_hex(s: Seq<char>, p: int) -> bool {
    at(s, p, '0', 'x') || at(s, p, '0', 'X')
}

/// Where the number ends that begins at `p`.
pub open spec fn number_end(s: Seq<char>, p: int) -> int {
    if at_hex(s, p) {
        hex_end(s, p + 2)
    } else {
        digits_end(s, p)
    }
}

/// The number that begins at `p`; zero where there is none or it does not fit.
pub open spec fn number_at(s: Seq<char>, p: int) -> i32 {
    if at_hex(s, p) {
        number_or_zero(s.subrange(p + 2, hex_end(s, p + 2)), 16)
    } else {
        number_or_zero(s.subrange(p, digits_end(s, p)), 10)
    }
}

/// Where a quoted text ends whose inside begins at `p`: behind the next quote `q` that
/// no backslash stands before.
pub open spec fn quoted_end(s: Seq<char>, p: int, q: char) -> int
    decreases s.len() - p,
{
    if p >= s.len() {
        s.len() as int
    } else if s[p] == '\\' {
        quoted_end(s, past(s, p, 2), q)
    } else if s[p] == q {
        p + 1
    } else {
        quoted_end(s, p + 1, q)
    }
}

/// Where a quoted text ends whose opening quote stands at `p`.
pub open spec fn literal_end(s: Seq<char>, p: int, q: char) -> int {
    quoted_end(s, past(s, p, 1), q)
}

/// Where a block of code ends in which `depth` braces are open at `p`: behind the brace
/// that closes the first of them. Braces inside quotes and comments do not count.
/// There is no end where the text ends first.
pub open spec fn code_end(s: Seq<char>, p: int, depth: nat) -> Option<int>
    decreases s.len() - p,
{
    if p < 0 || p >= s.len() {
        None
    } else if s[p] == '{' {
        code_end(s, p + 1, depth + 1)
    } else if s[p] == '}' {
        if depth <= 1 {
            Some(p + 1)
        } else {
            code_end(s, p + 1, (depth - 1) as nat)
        }
    } else if s[p] == '\'' || s[p] == '"' {
        proof {
            lemma_quoted_end(s, p + 1, s[p]);
        }
        code_end(s, quoted_end(s, p + 1, s[p]), depth)
    } else if at(s, p, '/', '*') {
        proof {
            lemma_comment_end(s, p + 2);
        }
        code_end(s, comment_end(s, p + 2), depth)
    } else if at(s, p, '/', '/') {
        proof {
            lemma_line_end(s, p + 2);
        }
        code_end(s, line_end(s, p + 2), depth)
    } else {
        code_end(s, p + 1, depth)
    }
}

/// Where the block of code ends whose inside begins at `p`.
pub open spec fn braced_end(s: Seq<char>, p: int) -> int {
    match code_end(s, p, 1) {
        Some(e) => e,
        None => s.len() as int,
    }
}

/// The inside of the block of code that begins at `p`.
pub open spec fn braced_code(s: Seq<char>, p: int) -> Seq<char> {
    match code_end(s, p, 1) {
        Some(e) => s.subrange(p, e - 1),
        None => s.subrange(p, s.len() as int),
    }
}

/// Whether a tag stands at `p`, in angle brackets.
pub open spec fn has_tag(s: Seq<char>, p: int) -> bool {
    at1(s, p, '<') && find(s, p + 1, '>') < s.len()
}

/// The tag that stands next from `p` on.
pub open spec fn tag_at(s: Seq<char>, p: int) -> Option<Seq<char>> {
    let q = skip(s, p);
    if has_tag(s, q) {
        Some(s.subrange(q + 1, find(s, q + 1, '>')))
    } else {
        None
    }
}

/// Where the tag ends that stands next from `p` on. An open angle bracket that nothing
/// closes reaches to the end of the text.
pub open spec fn tag_end(s: Seq<char>, p: int) -> int {
    let q = skip(s, p);
    if at1(s, q, '<') {
        past(s, find(s, q + 1, '>'), 1)
    } else {
        q
    }
}

/// Whether the identifier at `p` is followed by a colon, so that it begins a rule.
pub open spec fn rule_ahead(s: Seq<char>, p: int) -> bool {
    at1(s, blanks_end(s, ident_end(s, p)), ':')
}

/// The number of line feeds in the text.
pub open spec fn newlines(s: Seq<char>) -> nat
    decreases s.len(),
{
    if s.len() == 0 {
        0
    } else {
        newlines(s.drop_last()) + if s.last() == '\n' {
            1nat
        } else {
            0
        }
    }
}

/// The number of the line that `p` is in.
pub open spec fn line_of(s: Seq<char>, p: int) -> nat {
    1 + newlines(s.take(p))
}

// ---------------------------------------------------------------------------
// Words end inside the text, and not before they begin
// ---------------------------------------------------------------------------

/// `find` gives a position inside the text, not before the one it is given.
pub proof fn lemma_find(s: Seq<char>, p: int, c: char)
    requires
        0 <= p <= s.len(),
    ensures
        p <= find(s, p, c) <= s.len(),
        find(s, p, c) < s.len() ==> s[find(s, p, c)] == c,
    decreases s.len() - p,
{
    if p < s.len() && s[p] != c {
        lemma_find(s, p + 1, c);
    }
}

/// `find2` gives a position inside the text, not before the one it is given.
pub proof fn lemma_find2(s: Seq<char>, p: int, a: char, b: char)
    requires
        0 <= p <= s.len(),
    ensures
        p <= find2(s, p, a, b) <= s.len(),
        find2(s, p, a, b) < s.len() ==> at(s, find2(s, p, a, b), a, b),
    decreases s.len() - p,
{
    if p < s.len() && !at(s, p, a, b) {
        lemma_find2(s, p + 1, a, b);
    }
}

/// `comment_end` gives a position inside the text, not before the one it is given.
pub proof fn lemma_comment_end(s: Seq<char>, p: int)
    requires
        0 <= p <= s.len(),
    ensures
        p <= comment_end(s, p) <= s.len(),
{
    lemma_find2(s, p, '*', '/');
}

/// `line_end` gives a position inside the text, not before the one it is given.
pub proof fn lemma_line_end(s: Seq<char>, p: int)
    requires
        0 <= p <= s.len(),
    ensures
        p <= line_end(s, p) <= s.len(),
{
    lemma_find(s, p, '\n');
}

/// `quoted_end` gives a position inside the text, not before the one it is given.
pub proof fn lemma_quoted_end(s: Seq<char>, p: int, q: char)
    requires
        0 <= p <= s.len(),
    ensures
        p <= quoted_end(s, p, q) <= s.len(),
    decreases s.len() - p,
{
    if p < s.len() {
        if s[p] == '\\' {
            lemma_quoted_end(s, past(s, p, 2), q);
        } else if s[p] != q {
            lemma_quoted_end(s, p + 1, q);
        }
    }
}

/// `literal_end` gives a position inside the text, not before the one it is given.
pub proof fn lemma_literal_end(s: Seq<char>, p: int, q: char)
    requires
        0 <= p <= s.len(),
    ensures
        p <= literal_end(s, p, q) <= s.len(),
        p < s.len() ==> p < literal_end(s, p, q),
{
    lemma_quoted_end(s, past(s, p, 1), q);
}

/// What is skipped ends inside the text, where no white space and no comment begins.
pub proof fn lemma_skip(s: Seq<char>, p: int)
    requires
        0 <= p <= s.len(),
    ensures
        p <= skip(s, p) <= s.len(),
        skip(s, p) < s.len() ==> {
            let q = skip(s, p);
            !is_space(s[q]) && !at(s, q, '/', '*') && !at(s, q, '/', '/')
        },
    decreases s.len() - p,
{
    if p < s.len() {
        if is_space(s[p]) {
            lemma_skip(s, p + 1);
        } else if at(s, p, '/', '*') {
            lemma_comment_end(s, p + 2);
            lemma_skip(s, comment_end(s, p + 2));
        } else if at(s, p, '/', '/') {
            lemma_line_end(s, p + 2);
            lemma_skip(s, line_end(s, p + 2));
        }
    }
}

/// `skip_on_line` gives a position inside the text, not before the one it is given.
pub proof fn lemma_skip_on_line(s: Seq<char>, p: int)
    requires
        0 <= p <= s.len(),
    ensures
        p <= skip_on_line(s, p) <= s.len(),
    decreases s.len() - p,
{
    if p < s.len() {
        if is_space(s[p]) && s[p] != '\n' {
            lemma_skip_on_line(s, p + 1);
        } else if at(s, p, '/', '*') {
            lemma_comment_end(s, p + 2);
            lemma_skip_on_line(s, comment_end(s, p + 2));
        }
    }
}

/// `ident_end` gives a position inside the text, not before the one it is given.
pub proof fn lemma_ident_end(s: Seq<char>, p: int)
    requires
        0 <= p <= s.len(),
    ensures
        p <= ident_end(s, p) <= s.len(),
        p < s.len() && is_ident(s[p]) ==> p < ident_end(s, p),
    decreases s.len() - p,
{
    if p < s.len() && is_ident(s[p]) {
        lemma_ident_end(s, p + 1);
    }
}

/// `blanks_end` gives a position inside the text, not before the one it is given.
pub proof fn lemma_blanks_end(s: Seq<char>, p: int)
    requires
        0 <= p <= s.len(),
    ensures
        p <= blanks_end(s, p) <= s.len(),
    decreases s.len() - p,
{
    if p < s.len() && is_blank(s[p]) {
        lemma_blanks_end(s, p + 1);
    }
}

/// `digits_end` gives a position inside the text, not before the one it is given.
pub proof fn lemma_digits_end(s: Seq<char>, p: int)
    requires
        0 <= p <= s.len(),
    ensures
        p <= digits_end(s, p) <= s.len(),
    decreases s.len() - p,
{
    if p < s.len() && is_digit(s[p]) {
        lemma_digits_end(s, p + 1);
    }
}

/// `hex_end` gives a position inside the text, not before the one it is given.
pub proof fn lemma_hex_end(s: Seq<char>, p: int)
    requires
        0 <= p <= s.len(),
    ensures
        p <= hex_end(s, p) <= s.len(),
    decreases s.len() - p,
{
    if p < s.len() && is_hex(s[p]) {
        lemma_hex_end(s, p + 1);
    }
}

/// `word_end` gives a position inside the text, not before the one it is given.
pub proof fn lemma_word_end(s: Seq<char>, p: int)
    requires
        0 <= p <= s.len(),
    ensures
        p <= word_end(s, p) <= s.len(),
    decreases s.len() - p,
{
    if p < s.len() && !is_space(s[p]) {
        lemma_word_end(s, p + 1);
    }
}

/// `number_end` gives a position inside the text, not before the one it is given.
pub proof fn lemma_number_end(s: Seq<char>, p: int)
    requires
        0 <= p <= s.len(),
    ensures
        p <= number_end(s, p) <= s.len(),
{
    if at_hex(s, p) {
        lemma_hex_end(s, p + 2);
    } else {
        lemma_digits_end(s, p);
    }
}

/// `code_end` gives a position inside the text, not before the one it is given.
pub proof fn lemma_code_end(s: Seq<char>, p: int, depth: nat)
    requires
        0 <= p <= s.len(),
    ensures
        code_end(s, p, depth) matches Some(e) ==> p < e <= s.len(),
    decreases s.len() - p,
{
    if p < s.len() {
        if s[p] == '{' {
            lemma_code_end(s, p + 1, depth + 1);
        } else if s[p] == '}' {
            if depth > 1 {
                lemma_code_end(s, p + 1, (depth - 1) as nat);
            }
        } else if s[p] == '\'' || s[p] == '"' {
            lemma_quoted_end(s, p + 1, s[p]);
            lemma_code_end(s, quoted_end(s, p + 1, s[p]), depth);
        } else if at(s, p, '/', '*') {
            lemma_comment_end(s, p + 2);
            lemma_code_end(s, comment_end(s, p + 2), depth);
        } else if at(s, p, '/', '/') {
            lemma_line_end(s, p + 2);
            lemma_code_end(s, line_end(s, p + 2), depth);
        } else {
            lemma_code_end(s, p + 1, depth);
        }
    }
}

/// `braced_end` gives a position inside the text, not before the one it is given.
pub proof fn lemma_braced_end(s: Seq<char>, p: int)
    requires
        0 <= p <= s.len(),
    ensures
        p <= braced_end(s, p) <= s.len(),
{
    lemma_code_end(s, p, 1);
}

/// `tag_end` gives a position inside the text, not before the one it is given.
pub proof fn lemma_tag_end(s: Seq<char>, p: int)
    requires
        0 <= p <= s.len(),
    ensures
        p <= skip(s, p) <= tag_end(s, p) <= s.len(),
        at1(s, skip(s, p), '<') ==> skip(s, p) < tag_end(s, p),
{
    lemma_skip(s, p);
    let q = skip(s, p);
    if at1(s, q, '<') {
        lemma_find(s, q + 1, '>');
    }
}

/// A text has no more line feeds than characters.
pub proof fn lemma_newlines(s: Seq<char>)
    ensures
        newlines(s) <= s.len(),
    decreases s.len(),
{
    if s.len() > 0 {
        lemma_newlines(s.drop_last());
    }
}

// ---------------------------------------------------------------------------
// The reader
// ---------------------------------------------------------------------------

/// A reader of a grammar file: the text, a position in it, the number of the line
/// that the position is in, the grammar that was read so far, and the warnings that
/// came up.
pub struct YaccParser {
    pub input: Vec<char>,
    pub pos: usize,
    pub line: usize,
    pub grammar: Grammar,
    pub warnings: Vec<String>,
}

/// Whether the reader has only moved to `p`.
pub open spec fn moved(before: YaccParser, after: YaccParser, p: int) -> bool {
    &&& after.input == before.input
    &&& after.grammar == before.grammar
    &&& after.warnings == before.warnings
    &&& after.pos == p
    &&& after.wf()
}

impl YaccParser {
    /// The invariant of a reader.
    pub open spec fn wf(&self) -> bool {
        &&& self.pos <= self.input@.len()
        &&& self.input@.len() < usize::MAX
        &&& self.line == line_of(self.input@, self.pos as int)
        &&& wf(self.grammar@)
    }

    /// A reader at the beginning of the text.
    pub fn new(input: &str) -> (p: Self)
        ensures
            p.wf(),
            p.input@ == input@,
            p.pos == 0,
            p.line == 1,
            p.grammar@ == empty_grammar(),
            p.warnings@.len() == 0,
    {
        let mut chars: Vec<char> = chars_of(input);
        // Room for one more character shows that lines can be counted.
        chars.push('\n');
        proof {
            assert(chars@.len() == chars.len());
        }
        chars.pop();
        proof {
            assert(chars@ =~= input@);
            assert(newlines(chars@.take(0)) == 0);
        }
        YaccParser { input: chars, pos: 0, line: 1, grammar: Grammar::new(), warnings: Vec::new() }
    }

    /// The character at the position.
    pub fn peek(&self) -> (c: Option<char>)
        requires
            self.wf(),
        ensures
            c == if self.pos < self.input@.len() {
                Some(self.input@[self.pos as int])
            } else {
                None
            },
    {
        if self.pos < self.input.len() {
            Some(self.input[self.pos])
        } else {
            None
        }
    }

    /// Whether `c` stands at the position.
    pub fn sees(&self, c: char) -> (b: bool)
        requires
            self.wf(),
        ensures
            b == at1(self.input@, self.pos as int, c),
    {
        self.pos < self.input.len() && self.input[self.pos] == c
    }

    /// Whether `a` and `b` stand at the position.
    pub fn sees_both(&self, a: char, b: char) -> (r: bool)
        requires
            self.wf(),
        ensures
            r == at(self.input@, self.pos as int, a, b),
    {
        let n: usize = self.input.len();
        self.pos < n && self.pos + 1 < n && self.input[self.pos] == a && self.input[self.pos + 1]
            == b
    }

    /// Moves behind the character at the position, and gives that character.
    pub fn advance(&mut self) -> (c: Option<char>)
        requires
            old(self).wf(),
        ensures
            moved(*old(self), *final(self), past(old(self).input@, old(self).pos as int, 1)),
            c == if old(self).pos < old(self).input@.len() {
                Some(old(self).input@[old(self).pos as int])
            } else {
                None
            },
    {
        if self.pos >= self.input.len() {
            return None;
        }
        let c: char = self.input[self.pos];
        proof {
            let s = self.input@;
            let p = self.pos as int;
            assert(s.take(p + 1).drop_last() =~= s.take(p));
            lemma_newlines(s.take(p + 1));
        }
        self.pos += 1;
        if c == '\n' {
            self.line += 1;
        }
        Some(c)
    }

    /// Moves to the first `c`, or to the end of the text.
    pub fn skip_to(&mut self, c: char)
        requires
            old(self).wf(),
        ensures
            moved(*old(self), *final(self), find(old(self).input@, old(self).pos as int, c)),
    {
        while self.pos < self.input.len() && !self.sees(c)
            invariant
                moved(*old(self), *self, self.pos as int),
                find(self.input@, self.pos as int, c) == find(
                    self.input@,
                    old(self).pos as int,
                    c,
                ),
            decreases self.input@.len() - self.pos,
        {
            self.advance();
        }
    }

    /// Moves behind a comment in slash and star that begins at the position.
    pub fn skip_c_comment(&mut self)
        requires
            old(self).wf(),
        ensures
            moved(
                *old(self),
                *final(self),
                comment_end(
                    old(self).input@,
                    past(old(self).input@, old(self).pos as int, 2),
                ),
            ),
    {
        self.advance();
        self.advance();
        self.skip_comment_rest();
    }

    /// Moves behind the end of a comment in slash and star that the position is in.
    fn skip_comment_rest(&mut self)
        requires
            old(self).wf(),
        ensures
            moved(*old(self), *final(self), comment_end(old(self).input@, old(self).pos as int)),
    {
        let ghost s = self.input@;
        proof {
            lemma_find2(s, self.pos as int, '*', '/');
        }
        while self.pos < self.input.len() && !self.sees_both('*', '/')
            invariant
                moved(*old(self), *self, self.pos as int),
                s == self.input@,
                find2(s, self.pos as int, '*', '/') == find2(s, old(self).pos as int, '*', '/'),
            decreases self.input@.len() - self.pos,
        {
            self.advance();
        }
        self.advance();
        self.advance();
    }

    /// Moves behind the end of the line that the position is in.
    pub fn skip_line_comment(&mut self)
        requires
            old(self).wf(),
        ensures
            moved(*old(self), *final(self), line_end(old(self).input@, old(self).pos as int)),
    {
        proof {
            lemma_find(self.input@, self.pos as int, '\n');
        }
        self.skip_to('\n');
        self.advance();
    }

    /// Moves over white space and comments.
    pub fn skip_whitespace(&mut self)
        requires
            old(self).wf(),
        ensures
            moved(*old(self), *final(self), skip(old(self).input@, old(self).pos as int)),
    {
        let ghost s = self.input@;
        loop
            invariant
                moved(*old(self), *self, self.pos as int),
                s == self.input@,
                skip(s, self.pos as int) == skip(s, old(self).pos as int),
            ensures
                self.pos == skip(s, self.pos as int),
            decreases self.input@.len() - self.pos,
        {
            if self.pos >= self.input.len() {
                break;
            }
            if space(self.input[self.pos]) {
                self.advance();
            } else if self.sees_both('/', '*') {
                proof {
                    lemma_comment_end(s, self.pos + 2);
                }
                self.skip_c_comment();
            } else if self.sees_both('/', '/') {
                proof {
                    lemma_line_end(s, self.pos + 2);
                    assert(find(s, self.pos as int, '\n') == find(s, self.pos + 2, '\n')) by {
                        assert(find(s, self.pos as int, '\n') == find(s, self.pos + 1, '\n'));
                    }
                }
                self.skip_line_comment();
            } else {
                break;
            }
        }
    }

    /// Moves over white space and comments in slash and star, up to the end of the line.
    pub fn skip_blanks(&mut self)
        requires
            old(self).wf(),
        ensures
            moved(*old(self), *final(self), skip_on_line(old(self).input@, old(self).pos as int)),
    {
        let ghost s = self.input@;
        loop
            invariant
                moved(*old(self), *self, self.pos as int),
                s == self.input@,
                skip_on_line(s, self.pos as int) == skip_on_line(s, old(self).pos as int),
            ensures
                self.pos == skip_on_line(s, self.pos as int),
            decreases self.input@.len() - self.pos,
        {
            if self.pos >= self.input.len() {
                break;
            }
            if space(self.input[self.pos]) && self.input[self.pos] != '\n' {
                self.advance();
            } else if self.sees_both('/', '*') {
                proof {
                    lemma_comment_end(s, self.pos + 2);
                }
                self.skip_c_comment();
            } else {
                break;
            }
        }
    }

    /// Reads an identifier, which may be empty.
    pub fn read_identifier(&mut self) -> (name: String)
        requires
            old(self).wf(),
        ensures
            moved(*old(self), *final(self), ident_end(old(self).input@, old(self).pos as int)),
            name@ == old(self).input@.subrange(
                old(self).pos as int,
                ident_end(old(self).input@, old(self).pos as int),
            ),
            !is_reserved(name@),
    {
        let start: usize = self.pos;
        proof {
            let s = self.input@;
            let e = ident_end(s, start as int);
            lemma_ident_end(s, start as int);
            lemma_not_reserved(s.subrange(start as int, e));
        }
        while self.pos < self.input.len() && ident(self.input[self.pos])
            invariant
                start == old(self).pos,
                start <= self.pos,
                moved(*old(self), *self, self.pos as int),
                ident_end(self.input@, self.pos as int) == ident_end(self.input@, start as int),
            decreases self.input@.len() - self.pos,
        {
            self.advance();
        }
        slice_text(&self.input, start, self.pos)
    }

    /// Reads a number, decimal or hexadecimal; zero where there is none or it does not
    /// fit.
    pub fn read_number(&mut self) -> (v: i32)
        requires
            old(self).wf(),
        ensures
            moved(*old(self), *final(self), number_end(old(self).input@, old(self).pos as int)),
            v == number_at(old(self).input@, old(self).pos as int),
    {
        let ghost s = self.input@;
        if self.sees_both('0', 'x') || self.sees_both('0', 'X') {
            self.advance();
            self.advance();
            let start: usize = self.pos;
            while self.pos < self.input.len() && hex(self.input[self.pos])
                invariant
                    start <= self.pos,
                    s == self.input@,
                    moved(*old(self), *self, self.pos as int),
                    hex_end(s, self.pos as int) == hex_end(s, start as int),
                decreases self.input@.len() - self.pos,
            {
                self.advance();
            }
            return read_digits(&self.input, start, self.pos, 16);
        }
        let start: usize = self.pos;
        while self.pos < self.input.len() && digit(self.input[self.pos])
            invariant
                start <= self.pos,
                s == self.input@,
                moved(*old(self), *self, self.pos as int),
                digits_end(s, self.pos as int) == digits_end(s, start as int),
            decreases self.input@.len() - self.pos,
        {
            self.advance();
        }
        read_digits(&self.input, start, self.pos, 10)
    }

    /// Whether the identifier at the position is followed by a colon.
    pub fn is_new_rule_ahead(&self) -> (b: bool)
        requires
            self.wf(),
        ensures
            b == rule_ahead(self.input@, self.pos as int),
    {
        let ghost s = self.input@;
        let mut p: usize = self.pos;
        while p < self.input.len() && ident(self.input[p])
            invariant
                p <= self.input@.len(),
                s == self.input@,
                ident_end(s, p as int) == ident_end(s, self.pos as int),
            decreases self.input@.len() - p,
        {
            p += 1;
        }
        let ghost q = p as int;
        while p < self.input.len() && blank(self.input[p])
            invariant
                p <= self.input@.len(),
                s == self.input@,
                blanks_end(s, p as int) == blanks_end(s, q),
            decreases self.input@.len() - p,
        {
            p += 1;
        }
        p < self.input.len() && self.input[p] == ':'
    }

    /// Moves behind the end of a text in quotes `q` that the position is in.
    fn skip_quoted(&mut self, q: char)
        requires
            old(self).wf(),
        ensures
            moved(*old(self), *final(self), quoted_end(old(self).input@, old(self).pos as int, q)),
    {
        let ghost s = self.input@;
        loop
            invariant_except_break
                quoted_end(s, self.pos as int, q) == quoted_end(s, old(self).pos as int, q),
            invariant
                moved(*old(self), *self, self.pos as int),
                s == self.input@,
            ensures
                self.pos == quoted_end(s, old(self).pos as int, q),
            decreases self.input@.len() - self.pos,
        {
            match self.advance() {
                None => {
                    break;
                },
                Some(c) => {
                    if c == '\\' {
                        self.advance();
                    } else if c == q {
                        break;
                    }
                },
            }
        }
    }

    /// Reads a character literal, with its quotes.
    pub fn read_quoted_char(&mut self) -> (lit: String)
        requires
            old(self).wf(),
        ensures
            moved(
                *old(self),
                *final(self),
                literal_end(old(self).input@, old(self).pos as int, '\''),
            ),
            lit@ == old(self).input@.subrange(
                old(self).pos as int,
                literal_end(old(self).input@, old(self).pos as int, '\''),
            ),
            at1(old(self).input@, old(self).pos as int, '\'') ==> !is_reserved(lit@),
    {
        let start: usize = self.pos;
        proof {
            let s = self.input@;
            let e = literal_end(s, start as int, '\'');
            lemma_literal_end(s, start as int, '\'');
            if at1(s, start as int, '\'') {
                lemma_not_reserved(s.subrange(start as int, e));
            }
        }
        self.advance();
        self.skip_quoted('\'');
        slice_text(&self.input, start, self.pos)
    }

    /// Reads a string literal, with its quotes.
    pub fn read_quoted_string(&mut self) -> (lit: String)
        requires
            old(self).wf(),
        ensures
            moved(*old(self), *final(self), literal_end(old(self).input@, old(self).pos as int, '"')),
            lit@ == old(self).input@.subrange(
                old(self).pos as int,
                literal_end(old(self).input@, old(self).pos as int, '"'),
            ),
    {
        let start: usize = self.pos;
        proof {
            lemma_literal_end(self.input@, start as int, '"');
        }
        self.advance();
        self.skip_quoted('"');
        slice_text(&self.input, start, self.pos)
    }

    /// Reads a tag in angle brackets, where one stands next.
    pub fn read_tag(&mut self) -> (tag: Option<String>)
        requires
            old(self).wf(),
        ensures
            moved(*old(self), *final(self), tag_end(old(self).input@, old(self).pos as int)),
            crate::text::opt_text(tag) == tag_at(old(self).input@, old(self).pos as int),
    {
        self.skip_whitespace();
        if self.sees('<') {
            self.advance();
            let start: usize = self.pos;
            proof {
                lemma_find(self.input@, start as int, '>');
            }
            self.skip_to('>');
            if self.pos < self.input.len() {
                let tag: String = slice_text(&self.input, start, self.pos);
                self.advance();
                return Some(tag);
            }
        }
        None
    }

    /// Reads a block of code, behind its opening brace, and gives what is inside.
    pub fn read_braced_code(&mut self) -> (code: String)
        requires
            old(self).wf(),
        ensures
            moved(*old(self), *final(self), braced_end(old(self).input@, old(self).pos as int)),
            code@ == braced_code(old(self).input@, old(self).pos as int),
    {
        let start: usize = self.pos;
        let mut depth: usize = 1;
        let ghost s = self.input@;
        loop
            invariant
                start == old(self).pos,
                start <= self.pos,
                moved(*old(self), *self, self.pos as int),
                s == self.input@,
                1 <= depth <= 1 + self.pos - start,
                code_end(s, self.pos as int, depth as nat) == code_end(s, start as int, 1),
            ensures
                start <= self.pos == s.len(),
                code_end(s, start as int, 1) is None,
            decreases self.input@.len() - self.pos,
        {
            let ghost p = self.pos as int;
            match self.advance() {
                None => {
                    break;
                },
                Some(c) => {
                    if c == '{' {
                        depth += 1;
                    } else if c == '}' {
                        depth -= 1;
                        if depth == 0 {
                            return slice_text(&self.input, start, self.pos - 1);
                        }
                    } else if c == '\'' || c == '"' {
                        proof {
                            lemma_quoted_end(s, p + 1, c);
                        }
                        self.skip_quoted(c);
                    } else if c == '/' && self.sees('*') {
                        proof {
                            lemma_comment_end(s, p + 2);
                        }
                        self.advance();
                        self.skip_comment_rest();
                    } else if c == '/' && self.sees('/') {
                        proof {
                            lemma_line_end(s, p + 2);
                            assert(find(s, p + 1, '\n') == find(s, p + 2, '\n'));
                        }
                        self.skip_line_comment();
                    }
                },
            }
        }
        slice_text(&self.input, start, self.pos)
    }

    /// Reads the inside of a prologue block, and moves behind the end of the block.
    pub fn read_prologue_block(&mut self) -> (code: String)
        requires
            old(self).wf(),
        ensures
            moved(
                *old(self),
                *final(self),
                past(
                    old(self).input@,
                    find2(old(self).input@, old(self).pos as int, '%', '}'),
                    2,
                ),
            ),
            code@ == old(self).input@.subrange(
                old(self).pos as int,
                find2(old(self).input@, old(self).pos as int, '%', '}'),
            ),
    {
        let start: usize = self.pos;
        let ghost s = self.input@;
        proof {
            lemma_find2(s, start as int, '%', '}');
        }
        while self.pos < self.input.len() && !self.sees_both('%', '}')
            invariant
                start == old(self).pos,
                start <= self.pos,
                moved(*old(self), *self, self.pos as int),
                s == self.input@,
                find2(s, self.pos as int, '%', '}') == find2(s, start as int, '%', '}'),
            decreases self.input@.len() - self.pos,
        {
            self.advance();
        }
        let code: String = slice_text(&self.input, start, self.pos);
        self.advance();
        self.advance();
        code
    }
}

} // verus!
