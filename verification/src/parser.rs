//! The reader of grammar files.

use crate::grammar::{
    complete, intern, is_symbol, lemma_not_reserved, lemma_wf_frame, literal_char, rule_views,
    texts, wf, wf_rule, wf_token, Assoc, GrammarView, Rule, RuleView, TokenInfo, EOF_TOKEN,
};
use crate::lexer::{
    at, lemma_braced_end, lemma_find, lemma_find2, lemma_ident_end, lemma_literal_end, lemma_skip,
    lemma_tag_end, moved, skip, word_end, YaccParser,
};
use crate::syntax::{
    alternative, alternative_ends, alternative_rest, alternatives, at_line, at_prec, augmented,
    classified, completed, declarations, directive, epilogue, grammar_file, has_inside,
    ignored_list, lemma_alternative, lemma_directive, lemma_rule, lemma_symbol_end,
    lemma_token_number_end, literal_code, past_suffix, rule, rules, separator, token_decl,
    token_list, type_decl, type_list, unclassified, used_symbols, with_lhs, Outcome, Progress,
};
use crate::text::{copy_opt, digit, ident_start, opt_text, push_usize, reads, slice_text, space};
use vstd::prelude::*;

verus! {

/// Why a grammar file was not read.
#[derive(Debug)]
pub enum ParseError {
    /// The file is not as it should be.
    Message(String),
    /// A number passes the limit of 32 bits with a sign, or the end of the text cuts off a
    /// character literal so that no inside can be taken from it.
    Limit,
}

/// Whether the reader went from `before` to `after` with the result `r` as `o` says, with
/// no symbol for the whole input yet where there was none.
pub open spec fn agrees(
    before: YaccParser,
    after: YaccParser,
    r: Result<(), ParseError>,
    o: Outcome,
) -> bool {
    &&& agrees_at_end(before, after, r, o)
    &&& r is Ok ==> after.grammar.augmented_start == before.grammar.augmented_start
}

/// Whether the reader went from `before` to `after` with the result `r` as `o` says.
pub open spec fn agrees_at_end(
    before: YaccParser,
    after: YaccParser,
    r: Result<(), ParseError>,
    o: Outcome,
) -> bool {
    &&& after.input == before.input
    &&& match r {
        Ok(_) => after.wf() && o == Outcome::Done(after.progress()),
        Err(ParseError::Message(m)) => after.wf() && o == Outcome::Failed(after.progress(), m@),
        Err(ParseError::Limit) => o == Outcome::Limit(texts(after.warnings@)),
    }
}

impl YaccParser {
    /// What has been read.
    pub open spec fn progress(&self) -> Progress {
        Progress { pos: self.pos as int, g: self.grammar@, warnings: texts(self.warnings@) }
    }

    /// A message about the line that the position is in.
    fn line_message(&self, what: &str) -> (m: String)
        requires
            self.wf(),
        ensures
            m@ == at_line(self.input@, self.pos as int, what@),
    {
        let mut m: String = "line ".to_owned();
        push_usize(&mut m, self.line);
        m.append(": ");
        m.append(what);
        m
    }

    /// The code of the character that the literal from `start` up to the position denotes.
    fn literal_value(&self, start: usize) -> (r: Result<Option<i32>, ParseError>)
        requires
            self.wf(),
            start <= self.pos,
        ensures
            match r {
                Ok(v) => has_inside(self.input@.subrange(start as int, self.pos as int)) && v
                    == literal_code(self.input@.subrange(start as int, self.pos as int)),
                Err(e) => e is Limit && !has_inside(
                    self.input@.subrange(start as int, self.pos as int),
                ),
            },
    {
        let ghost lit = self.input@.subrange(start as int, self.pos as int);
        if self.pos - start < 2 || self.input[self.pos - 1] as u32 >= 128 {
            return Err(ParseError::Limit);
        }
        proof {
            assert(lit.subrange(1, lit.len() - 1) =~= self.input@.subrange(
                start + 1,
                self.pos - 1,
            ));
        }
        match literal_char(&self.input, start + 1, self.pos - 1) {
            Some(c) => {
                let u: u32 = c as u32;
                Ok(Some(u as i32))
            },
            None => Ok(None),
        }
    }

    /// Reads the tokens of a declaration, with the tag before them.
    pub fn parse_token_decl(&mut self, assoc: Assoc, prec: i32) -> (r: Result<(), ParseError>)
        requires
            old(self).wf(),
            0 <= prec < old(self).grammar.next_prec,
        ensures
            agrees(
                *old(self),
                *final(self),
                r,
                token_decl(old(self).input@, old(self).progress(), assoc, prec),
            ),
            r is Ok ==> final(self).grammar.next_prec == old(self).grammar.next_prec,
    {
        let ghost s = self.input@;
        let ghost o = token_decl(s, self.progress(), assoc, prec);
        let ghost t = crate::lexer::tag_at(s, self.pos as int);
        let tag: Option<String> = self.read_tag();
        loop
            invariant
                self.wf(),
                self.input == old(self).input,
                s == self.input@,
                0 <= prec < self.grammar.next_prec,
                self.grammar.next_prec == old(self).grammar.next_prec,
                self.grammar.augmented_start == old(self).grammar.augmented_start,
                opt_text(tag) == t,
                token_list(s, self.progress(), t, assoc, prec) == o,
                o == token_decl(s, old(self).progress(), assoc, prec),
            decreases self.input@.len() - self.pos,
        {
            proof {
                lemma_skip(s, self.pos as int);
            }
            self.skip_whitespace();
            let start: usize = self.pos;
            let c: char = match self.peek() {
                Some(c) => c,
                None => {
                    return Ok(());
                },
            };
            if ident_start(c) {
                proof {
                    lemma_ident_end(s, start as int);
                }
                let name: String = self.read_identifier();
                let ghost e = self.pos as int;
                proof {
                    lemma_token_number_end(s, e);
                }
                let id: usize = self.grammar.intern_symbol(name.as_str());
                self.skip_whitespace();
                let numbered: bool = match self.peek() {
                    Some(c) => c == '{' || digit(c),
                    None => false,
                };
                let v: i32 = if numbered {
                    self.read_number()
                } else {
                    self.grammar.next_token_value
                };
                let mut next: i32 = self.grammar.next_token_value;
                if v >= next {
                    if v == i32::MAX {
                        return Err(ParseError::Limit);
                    }
                    next = v + 1;
                }
                let next_prec: i32 = self.grammar.next_prec;
                self.grammar.raise(next_prec, next);
                self.grammar.add_token(
                    id,
                    TokenInfo {
                        name,
                        value: Some(v),
                        tag: copy_opt(&tag),
                        prec,
                        assoc,
                        is_literal: false,
                    },
                );
            } else if c == '\'' {
                proof {
                    lemma_literal_end(s, start as int, '\'');
                }
                let lit: String = self.read_quoted_char();
                let id: usize = self.grammar.intern_symbol(lit.as_str());
                let value: Option<i32> = match self.literal_value(start) {
                    Ok(v) => v,
                    Err(e) => {
                        return Err(e);
                    },
                };
                self.grammar.add_token(
                    id,
                    TokenInfo {
                        name: lit,
                        value,
                        tag: copy_opt(&tag),
                        prec,
                        assoc,
                        is_literal: true,
                    },
                );
            } else {
                return Ok(());
            }
        }
    }

    /// Reads a declaration of types.
    pub fn parse_type_decl(&mut self) -> (r: Result<(), ParseError>)
        requires
            old(self).wf(),
        ensures
            agrees(
                *old(self),
                *final(self),
                r,
                type_decl(old(self).input@, old(self).progress()),
            ),
    {
        let ghost s = self.input@;
        let ghost o = type_decl(s, self.progress());
        let tag: String = match self.read_tag() {
            Some(tag) => tag,
            None => {
                return Err(ParseError::Message(self.line_message("expected <tag> after %type")));
            },
        };
        loop
            invariant
                self.wf(),
                self.input == old(self).input,
                s == self.input@,
                self.grammar.augmented_start == old(self).grammar.augmented_start,
                o == type_decl(s, old(self).progress()),
                o == Outcome::Done(type_list(s, self.progress(), tag@)),
            decreases self.input@.len() - self.pos,
        {
            proof {
                lemma_skip(s, self.pos as int);
            }
            self.skip_whitespace();
            let c: char = match self.peek() {
                Some(c) => c,
                None => {
                    return Ok(());
                },
            };
            proof {
                lemma_ident_end(s, self.pos as int);
                lemma_literal_end(s, self.pos as int, '\'');
            }
            let name: String = if ident_start(c) {
                self.read_identifier()
            } else if c == '\'' {
                self.read_quoted_char()
            } else {
                return Ok(());
            };
            let id: usize = self.grammar.intern_symbol(name.as_str());
            self.grammar.add_tag(id, &tag);
        }
    }

    /// Moves over a list of symbols that nothing is made of.
    fn skip_symbol_list(&mut self)
        requires
            old(self).wf(),
        ensures
            moved(*old(self), *final(self), ignored_list(old(self).input@, old(self).pos as int)),
    {
        let ghost s = self.input@;
        loop
            invariant
                moved(*old(self), *self, self.pos as int),
                s == self.input@,
                ignored_list(s, self.pos as int) == ignored_list(s, old(self).pos as int),
            decreases self.input@.len() - self.pos,
        {
            proof {
                lemma_skip(s, self.pos as int);
            }
            self.skip_whitespace();
            let ghost q = self.pos as int;
            let c: char = match self.peek() {
                Some(c) => c,
                None => {
                    return;
                },
            };
            proof {
                lemma_tag_end(s, q);
                lemma_ident_end(s, q);
                lemma_literal_end(s, q, '\'');
                assert(skip(s, q) == q);
            }
            if c == '<' {
                self.read_tag();
            } else if c == '\'' {
                self.read_quoted_char();
            } else if ident_start(c) {
                self.read_identifier();
            } else {
                return;
            }
        }
    }

    /// Moves over the suffix that the word `pure` may have, if it stands at the position.
    fn skip_suffix(&mut self)
        requires
            old(self).wf(),
        ensures
            moved(*old(self), *final(self), past_suffix(old(self).input@, old(self).pos as int)),
    {
        if self.input.len() - self.pos < 7 {
            return;
        }
        let suffix: String = slice_text(&self.input, self.pos, self.pos + 7);
        if !reads(&suffix, "-parser") {
            return;
        }
        let end: usize = self.pos + 7;
        while self.pos < end
            invariant
                moved(*old(self), *self, self.pos as int),
                self.pos <= end <= self.input@.len(),
            decreases end - self.pos,
        {
            self.advance();
        }
    }

    /// Moves over a text in double quotes, if one stands next.
    fn skip_optional_string(&mut self)
        requires
            old(self).wf(),
        ensures
            moved(
                *old(self),
                *final(self),
                crate::syntax::optional_string_end(old(self).input@, old(self).pos as int),
            ),
    {
        self.skip_whitespace();
        if self.sees('"') {
            self.read_quoted_string();
        }
    }

    /// Moves to the next white space.
    fn skip_word(&mut self)
        requires
            old(self).wf(),
        ensures
            moved(*old(self), *final(self), word_end(old(self).input@, old(self).pos as int)),
    {
        let ghost s = self.input@;
        while self.pos < self.input.len() && !space(self.input[self.pos])
            invariant
                moved(*old(self), *self, self.pos as int),
                s == self.input@,
                word_end(s, self.pos as int) == word_end(s, old(self).pos as int),
            decreases self.input@.len() - self.pos,
        {
            self.advance();
        }
    }

    /// Reads tokens to which the declaration gives the next precedence.
    fn parse_prec_decl(&mut self, assoc: Assoc) -> (r: Result<(), ParseError>)
        requires
            old(self).wf(),
        ensures
            agrees(
                *old(self),
                *final(self),
                r,
                crate::syntax::prec_decl(old(self).input@, old(self).progress(), assoc),
            ),
    {
        let prec: i32 = self.grammar.next_prec;
        if prec == i32::MAX {
            return Err(ParseError::Limit);
        }
        let next: i32 = self.grammar.next_token_value;
        self.grammar.raise(prec + 1, next);
        self.parse_token_decl(assoc, prec)
    }

    /// Reads the declaration of the type of semantic values.
    fn parse_union(&mut self)
        requires
            old(self).wf(),
        ensures
            final(self).wf(),
            final(self).input == old(self).input,
            final(self).grammar.augmented_start == old(self).grammar.augmented_start,
            final(self).progress() == crate::syntax::union_decl(
                old(self).input@,
                old(self).progress(),
            ),
    {
        self.skip_whitespace();
        if self.sees('{') {
            self.advance();
            let ghost g = self.grammar@;
            let code: String = self.read_braced_code();
            self.grammar.union_code = code;
            proof {
                let h = GrammarView { union_code: code@, ..g };
                assert(self.grammar@ =~= h);
                lemma_wf_frame(g, h);
            }
        }
    }

    /// Reads the declaration of the start symbol.
    fn parse_start(&mut self)
        requires
            old(self).wf(),
        ensures
            final(self).wf(),
            final(self).input == old(self).input,
            final(self).grammar.augmented_start == old(self).grammar.augmented_start,
            final(self).progress() == crate::syntax::start_decl(
                old(self).input@,
                old(self).progress(),
            ),
    {
        self.skip_whitespace();
        let name: String = self.read_identifier();
        let id: usize = self.grammar.intern_symbol(name.as_str());
        let ghost g = self.grammar@;
        self.grammar.start_symbol = Some(id);
        proof {
            let h = GrammarView { start: Some(id), ..g };
            assert(self.grammar@ =~= h);
            lemma_wf_frame(g, h);
        }
    }

    /// Reads a declaration that a word after a percent sign begins. The position is
    /// behind the percent sign.
    pub fn parse_directive(&mut self) -> (r: Result<(), ParseError>)
        requires
            old(self).wf(),
        ensures
            agrees(
                *old(self),
                *final(self),
                r,
                directive(old(self).input@, old(self).progress()),
            ),
    {
        let ghost s = self.input@;
        let word: String = self.read_identifier();
        if reads(&word, "token") {
            return self.parse_token_decl(Assoc::Unset, 0);
        }
        if reads(&word, "left") {
            return self.parse_prec_decl(Assoc::Left);
        }
        if reads(&word, "right") {
            return self.parse_prec_decl(Assoc::Right);
        }
        if reads(&word, "nonassoc") {
            return self.parse_prec_decl(Assoc::NonAssoc);
        }
        if reads(&word, "union") {
            self.parse_union();
            return Ok(());
        }
        if reads(&word, "type") {
            return self.parse_type_decl();
        }
        if reads(&word, "start") {
            self.parse_start();
            return Ok(());
        }
        if reads(&word, "expect") {
            self.skip_whitespace();
            let ghost g = self.grammar@;
            let n: i32 = self.read_number();
            self.grammar.expect_conflicts = Some(n);
            proof {
                let h = GrammarView { expect_conflicts: Some(n), ..g };
                assert(self.grammar@ =~= h);
                lemma_wf_frame(g, h);
            }
            return Ok(());
        }
        if reads(&word, "defines") {
            let ghost g = self.grammar@;
            self.grammar.defines = true;
            proof {
                let h = GrammarView { defines: true, ..g };
                assert(self.grammar@ =~= h);
                lemma_wf_frame(g, h);
            }
            self.skip_optional_string();
            return Ok(());
        }
        if reads(&word, "define") {
            self.skip_whitespace();
            self.skip_word();
            self.skip_blanks();
            self.skip_to('\n');
            return Ok(());
        }
        if reads(&word, "output") {
            self.skip_optional_string();
            return Ok(());
        }
        if reads(&word, "pure") {
            self.skip_suffix();
            self.skip_whitespace();
            return Ok(());
        }
        if reads(&word, "pure_parser") || reads(&word, "error") || reads(&word, "verbose") {
            self.skip_whitespace();
            return Ok(());
        }
        if reads(&word, "destructor") || reads(&word, "printer") {
            self.skip_whitespace();
            if self.sees('{') {
                self.advance();
                self.read_braced_code();
            }
            self.skip_symbol_list();
            return Ok(());
        }
        if reads(&word, "") {
            return Ok(());
        }
        let mut warning: String = "warning: unknown directive %".to_owned();
        warning.append(word.as_str());
        let ghost before = texts(self.warnings@);
        self.warnings.push(warning);
        proof {
            assert(texts(self.warnings@) =~= before.push(warning@));
        }
        self.skip_to('\n');
        Ok(())
    }

    /// Reads the first part of the file, up to two percent signs.
    pub fn parse_declarations(&mut self) -> (r: Result<(), ParseError>)
        requires
            old(self).wf(),
        ensures
            agrees(
                *old(self),
                *final(self),
                r,
                declarations(old(self).input@, old(self).progress()),
            ),
    {
        let ghost s = self.input@;
        loop
            invariant
                self.wf(),
                self.input == old(self).input,
                s == self.input@,
                self.grammar.augmented_start == old(self).grammar.augmented_start,
                declarations(s, self.progress()) == declarations(s, old(self).progress()),
            decreases self.input@.len() - self.pos,
        {
            proof {
                lemma_skip(s, self.pos as int);
            }
            self.skip_whitespace();
            if self.pos >= self.input.len() {
                return Err(
                    ParseError::Message("unexpected end of input in declarations".to_owned()),
                );
            }
            if self.sees_both('%', '%') {
                return Ok(());
            }
            if self.sees_both('%', '{') {
                proof {
                    lemma_find2(s, self.pos + 2, '%', '}');
                }
                self.advance();
                self.advance();
                let code: String = self.read_prologue_block();
                let ghost g = self.grammar@;
                self.grammar.prologue.append(code.as_str());
                self.grammar.prologue.push('\n');
                proof {
                    let h = GrammarView { prologue: (g.prologue + code@).push('\n'), ..g };
                    assert(self.grammar@ =~= h);
                    lemma_wf_frame(g, h);
                }
            } else if self.sees('%') {
                self.advance();
                proof {
                    lemma_directive(s, self.progress());
                }
                match self.parse_directive() {
                    Ok(_) => {},
                    Err(e) => {
                        return Err(e);
                    },
                }
            } else {
                proof {
                    lemma_find(s, self.pos + 1, '\n');
                }
                self.skip_to('\n');
            }
        }
    }

    /// Reads the two percent signs between the first part of the file and the second.
    pub fn expect_separator(&mut self) -> (r: Result<(), ParseError>)
        requires
            old(self).wf(),
        ensures
            agrees(
                *old(self),
                *final(self),
                r,
                separator(old(self).input@, old(self).progress()),
            ),
    {
        self.skip_whitespace();
        if self.sees_both('%', '%') {
            self.advance();
            self.advance();
            Ok(())
        } else {
            Err(ParseError::Message(self.line_message("expected %%")))
        }
    }

    /// Whether the word `%prec` stands at the position.
    fn sees_prec(&self) -> (b: bool)
        requires
            self.wf(),
        ensures
            b == at_prec(self.input@, self.pos as int),
    {
        if self.input.len() - self.pos < 5 {
            return false;
        }
        let word: String = slice_text(&self.input, self.pos, self.pos + 5);
        reads(&word, "%prec")
    }

    /// Whether an alternative of a rule ends at the position, behind an action.
    fn at_alternative_end(&self) -> (b: bool)
        requires
            self.wf(),
        ensures
            b == alternative_ends(self.input@, self.pos as int),
    {
        match self.peek() {
            None => true,
            Some(c) => c == ';' || c == '|' || c == '%' || (ident_start(c)
                && self.is_new_rule_ahead()),
        }
    }

    /// Gives an action inside an alternative a rule of its own, and gives the symbol of
    /// that rule.
    fn add_mid_rule(&mut self, action: String, action_line: usize) -> (id: usize)
        requires
            old(self).wf(),
        ensures
            final(self).wf(),
            final(self).input == old(self).input,
            final(self).pos == old(self).pos,
            final(self).warnings == old(self).warnings,
            (final(self).grammar@, id) == crate::syntax::with_mid_rule(
                old(self).grammar@,
                action@,
                action_line,
            ),
            is_symbol(final(self).grammar@, id),
            id != EOF_TOKEN,
            final(self).grammar.augmented_start == old(self).grammar.augmented_start,
            extends(old(self).grammar@, final(self).grammar@),
    {
        let n: usize = self.grammar.rules.len();
        let mut name: String = "@".to_owned();
        push_usize(&mut name, n);
        proof {
            reveal_strlit("@");
            assert(name@[0] == '@');
            lemma_not_reserved(name@);
        }
        let id: usize = self.grammar.intern_symbol(name.as_str());
        self.grammar.add_nonterminal(id);
        let rule = Rule {
            lhs: id,
            rhs: Vec::new(),
            action,
            action_line,
            prec_sym: None,
            rule_number: n,
        };
        proof {
            assert(rule@.rhs =~= Seq::empty());
        }
        self.grammar.add_rule(rule);
        id
    }

    /// Reads an alternative of the nonterminal `lhs`.
    #[verifier::rlimit(30)]
    pub fn parse_alternative(&mut self, lhs: usize) -> (r: Result<(), ParseError>)
        requires
            old(self).wf(),
            is_symbol(old(self).grammar@, lhs),
            old(self).grammar@.nonterminals.contains(lhs),
        ensures
            agrees(
                *old(self),
                *final(self),
                r,
                alternative(old(self).input@, old(self).progress(), lhs),
            ),
            r is Ok ==> extends(old(self).grammar@, final(self).grammar@),
    {
        let ghost s = self.input@;
        let ghost o = alternative(s, self.progress(), lhs);
        let mut rhs: Vec<usize> = Vec::new();
        let mut action: String = String::new();
        let action_line: usize = self.line;
        let mut prec_sym: Option<usize> = None;
        let ghost mut alt = RuleView {
            lhs,
            rhs: rhs@,
            action: action@,
            action_line,
            prec_sym,
            rule_number: 0,
        };
        proof {
            assert(alt.rhs =~= Seq::empty());
        }
        loop
            invariant_except_break
                alternative_rest(s, self.progress(), alt) == o,
            invariant
                self.wf(),
                self.input == old(self).input,
                s == self.input@,
                self.grammar.augmented_start == old(self).grammar.augmented_start,
                o == alternative(s, old(self).progress(), lhs),
                extends(old(self).grammar@, self.grammar@),
                is_symbol(old(self).grammar@, lhs),
                old(self).grammar@.nonterminals.contains(lhs),
                alt == (RuleView {
                    lhs,
                    rhs: rhs@,
                    action: action@,
                    action_line,
                    prec_sym,
                    rule_number: 0,
                }),
                wf_rule(self.grammar@, alt),
                !alt.rhs.contains(EOF_TOKEN),
            ensures
                crate::syntax::finished(self.progress(), self.pos as int, alt) == o,
            decreases self.input@.len() - self.pos,
        {
            let ghost g0 = self.grammar@;
            proof {
                lemma_skip(s, self.pos as int);
            }
            self.skip_whitespace();
            let start: usize = self.pos;
            let c: char = match self.peek() {
                Some(c) => c,
                None => {
                    break;
                },
            };
            proof {
                lemma_literal_end(s, start as int, '\'');
                lemma_ident_end(s, start as int);
            }
            if c == ';' || c == '|' {
                break;
            } else if c == '{' {
                proof {
                    lemma_braced_end(s, start + 1);
                    lemma_skip(s, crate::lexer::braced_end(s, start + 1));
                }
                self.advance();
                action = self.read_braced_code();
                self.skip_whitespace();
                proof {
                    alt = RuleView { action: action@, ..alt };
                }
                if self.at_alternative_end() {
                    break;
                }
                let id: usize = self.add_mid_rule(action, action_line);
                rhs.push(id);
                action = String::new();
                proof {
                    alt = RuleView { rhs: rhs@, action: Seq::empty(), ..alt };
                    assert(action@ =~= Seq::empty());
                }
            } else if c == '%' {
                if !self.sees_prec() {
                    break;
                }
                proof {
                    lemma_ident_end(s, start + 1);
                    lemma_skip(s, crate::lexer::ident_end(s, start + 1));
                    lemma_symbol_end(s, skip(s, crate::lexer::ident_end(s, start + 1)));
                }
                self.advance();
                self.read_identifier();
                self.skip_whitespace();
                let name: String = if self.sees('\'') {
                    self.read_quoted_char()
                } else {
                    self.read_identifier()
                };
                let id: usize = self.grammar.intern_symbol(name.as_str());
                prec_sym = Some(id);
                proof {
                    alt = RuleView { prec_sym, ..alt };
                }
            } else if c == '\'' {
                let lit: String = self.read_quoted_char();
                let id: usize = self.grammar.intern_symbol(lit.as_str());
                if !self.grammar.is_terminal(id) && !self.grammar.is_nonterminal(id) {
                    let value: Option<i32> = match self.literal_value(start) {
                        Ok(v) => v,
                        Err(e) => {
                            return Err(e);
                        },
                    };
                    self.grammar.add_token(
                        id,
                        TokenInfo {
                            name: lit,
                            value,
                            tag: None,
                            prec: 0,
                            assoc: Assoc::Unset,
                            is_literal: true,
                        },
                    );
                }
                rhs.push(id);
                proof {
                    alt = RuleView { rhs: rhs@, ..alt };
                }
            } else if ident_start(c) {
                let name: String = self.read_identifier();
                let id: usize = self.grammar.intern_symbol(name.as_str());
                rhs.push(id);
                proof {
                    alt = RuleView { rhs: rhs@, ..alt };
                }
            } else {
                let mut what: String = "unexpected character '".to_owned();
                what.push(c);
                what.append("' in rule");
                proof {
                    assert(what@ =~= "unexpected character '"@ + seq![c] + "' in rule"@);
                }
                return Err(ParseError::Message(self.line_message(what.as_str())));
            }
            proof {
                assert(extends(g0, self.grammar@));
                assert(rhs@.len() == rhs.len());
            }
        }
        let rule_number: usize = self.grammar.rules.len();
        let new_rule = Rule { lhs, rhs, action, action_line, prec_sym, rule_number };
        proof {
            assert(wf_rule(self.grammar@, new_rule@)) by {
                assert(new_rule@.rhs == alt.rhs);
                assert(new_rule.rhs@.len() == new_rule.rhs.len());
            }
        }
        self.grammar.add_rule(new_rule);
        Ok(())
    }

    /// Reads a nonterminal with its alternatives.
    pub fn parse_rule(&mut self) -> (r: Result<(), ParseError>)
        requires
            old(self).wf(),
        ensures
            agrees(*old(self), *final(self), r, rule(old(self).input@, old(self).progress())),
    {
        let ghost s = self.input@;
        let ghost o = rule(s, self.progress());
        proof {
            lemma_skip(s, self.pos as int);
        }
        self.skip_whitespace();
        let start: usize = self.pos;
        let name: String = self.read_identifier();
        if self.pos == start {
            return Err(ParseError::Message(self.line_message("expected rule name")));
        }
        proof {
            lemma_ident_end(s, start as int);
        }
        let lhs: usize = self.grammar.intern_symbol(name.as_str());
        self.grammar.add_nonterminal(lhs);
        let ghost g = self.grammar@;
        if self.grammar.start_symbol.is_none() {
            self.grammar.start_symbol = Some(lhs);
        }
        proof {
            let h = with_lhs(intern(old(self).grammar@, name@).0, lhs);
            assert(self.grammar@ =~= h);
            lemma_wf_frame(g, h);
            lemma_skip(s, self.pos as int);
        }
        self.skip_whitespace();
        if !self.sees(':') {
            let mut what: String = "expected ':' after '".to_owned();
            what.append(name.as_str());
            what.append("'");
            return Err(ParseError::Message(self.line_message(what.as_str())));
        }
        self.advance();
        loop
            invariant
                self.wf(),
                self.input == old(self).input,
                s == self.input@,
                is_symbol(self.grammar@, lhs),
                self.grammar@.nonterminals.contains(lhs),
                self.grammar.augmented_start == old(self).grammar.augmented_start,
                o == rule(s, old(self).progress()),
                o == alternatives(s, self.progress(), lhs),
            decreases self.input@.len() - self.pos,
        {
            proof {
                lemma_alternative(s, self.progress(), lhs);
            }
            match self.parse_alternative(lhs) {
                Ok(_) => {},
                Err(e) => {
                    return Err(e);
                },
            }
            proof {
                lemma_skip(s, self.pos as int);
            }
            self.skip_whitespace();
            if self.sees('|') {
                self.advance();
            } else if self.sees(';') {
                self.advance();
                return Ok(());
            } else {
                return Ok(());
            }
        }
    }

    /// Reads the second part of the file, up to two percent signs or the end.
    pub fn parse_rules(&mut self) -> (r: Result<(), ParseError>)
        requires
            old(self).wf(),
        ensures
            agrees(*old(self), *final(self), r, rules(old(self).input@, old(self).progress())),
    {
        let ghost s = self.input@;
        loop
            invariant
                self.wf(),
                self.input == old(self).input,
                s == self.input@,
                self.grammar.augmented_start == old(self).grammar.augmented_start,
                rules(s, self.progress()) == rules(s, old(self).progress()),
            decreases self.input@.len() - self.pos,
        {
            proof {
                lemma_skip(s, self.pos as int);
            }
            self.skip_whitespace();
            if self.pos >= self.input.len() {
                return Ok(());
            }
            if self.sees_both('%', '%') {
                self.advance();
                self.advance();
                return Ok(());
            }
            proof {
                lemma_rule(s, self.progress());
            }
            match self.parse_rule() {
                Ok(_) => {},
                Err(e) => {
                    return Err(e);
                },
            }
        }
    }

    /// Takes the rest of the text as the third part of the file.
    pub fn parse_epilogue(&mut self)
        requires
            old(self).wf(),
        ensures
            final(self).wf(),
            final(self).input == old(self).input,
            final(self).grammar.augmented_start == old(self).grammar.augmented_start,
            final(self).progress() == epilogue(old(self).input@, old(self).progress()),
    {
        let ghost g = self.grammar@;
        let rest: String = slice_text(&self.input, self.pos, self.input.len());
        self.grammar.epilogue = rest;
        proof {
            let h = GrammarView { epilogue: rest@, ..g };
            assert(self.grammar@ =~= h);
            lemma_wf_frame(g, h);
        }
    }

    /// Makes a token of each symbol in a rule that is neither a terminal nor a
    /// nonterminal. The result says whether the token numbers sufficed.
    fn classify(&mut self) -> (ok: bool)
        requires
            old(self).wf(),
        ensures
            ok ==> {
                &&& final(self).wf()
                &&& final(self).input == old(self).input
                &&& final(self).pos == old(self).pos
                &&& final(self).warnings == old(self).warnings
                &&& final(self).grammar@.rules == old(self).grammar@.rules
                &&& final(self).grammar.augmented_start == old(self).grammar.augmented_start
                &&& classified(old(self).grammar@, used_symbols(old(self).grammar@.rules)) == Some(
                    final(self).grammar@,
                )
                &&& forall|i: int, k: int|
                    0 <= i < final(self).grammar@.rules.len() && 0 <= k
                        < final(self).grammar@.rules[i].rhs.len() ==> !unclassified(
                        final(self).grammar@,
                        #[trigger] final(self).grammar@.rules[i].rhs[k],
                    )
            },
            !ok ==> {
                &&& final(self).input == old(self).input
                &&& final(self).warnings == old(self).warnings
                &&& classified(old(self).grammar@, used_symbols(old(self).grammar@.rules)) is None
            },
    {
        let ghost g0 = self.grammar@;
        let all: Vec<usize> = self.used();
        let mut k: usize = 0;
        proof {
            assert(all@.take(0) =~= Seq::empty());
            assert forall|j: int| 0 <= j < all@.len() implies is_symbol(g0, #[trigger] all@[j]) by {
                lemma_used_are_symbols(g0, g0.rules, j);
            }
        }
        while k < all.len()
            invariant
                k <= all@.len(),
                self.wf(),
                self.input == old(self).input,
                self.pos == old(self).pos,
                self.warnings == old(self).warnings,
                g0 == old(self).grammar@,
                all@ == used_symbols(g0.rules),
                self.grammar@.rules == g0.rules,
                self.grammar@.symbols == g0.symbols,
                self.grammar.augmented_start == old(self).grammar.augmented_start,
                classified(g0, all@.take(k as int)) == Some(self.grammar@),
                forall|j: int| 0 <= j < all@.len() ==> is_symbol(g0, #[trigger] all@[j]),
                forall|j: int|
                    0 <= j < k ==> !unclassified(self.grammar@, #[trigger] all@[j]),
            decreases all@.len() - k,
        {
            let sym: usize = all[k];
            let ghost part = all@.take(k + 1);
            proof {
                assert(part.drop_last() =~= all@.take(k as int));
                assert(part.last() == sym);
                assert(is_symbol(g0, all@[k as int]));
            }
            if !self.grammar.is_terminal(sym) && !self.grammar.is_nonterminal(sym) {
                let v: i32 = self.grammar.next_token_value;
                if v == i32::MAX {
                    proof {
                        lemma_classified_prefix(g0, all@, k + 1);
                    }
                    return false;
                }
                let next_prec: i32 = self.grammar.next_prec;
                let name: String = self.grammar.symbols[sym].clone();
                proof {
                    assert(name@ == self.grammar@.symbols[sym as int]);
                }
                self.grammar.raise(next_prec, v + 1);
                self.grammar.add_token(
                    sym,
                    TokenInfo {
                        name,
                        value: Some(v),
                        tag: None,
                        prec: 0,
                        assoc: Assoc::Unset,
                        is_literal: false,
                    },
                );
            }
            k += 1;
        }
        proof {
            assert(all@.take(k as int) =~= all@);
            assert forall|i: int, j: int|
                0 <= i < self.grammar@.rules.len() && 0 <= j
                    < self.grammar@.rules[i].rhs.len() implies !unclassified(
                self.grammar@,
                #[trigger] self.grammar@.rules[i].rhs[j],
            ) by {
                lemma_used(g0.rules, i, j);
            }
        }
        true
    }

    /// The symbols on the right-hand sides of the rules, in order.
    fn used(&self) -> (all: Vec<usize>)
        ensures
            all@ == used_symbols(self.grammar@.rules),
    {
        let ghost rs = self.grammar@.rules;
        let mut all: Vec<usize> = Vec::new();
        let mut i: usize = 0;
        proof {
            assert(rs.take(0) =~= Seq::empty());
        }
        while i < self.grammar.rules.len()
            invariant
                i <= self.grammar.rules@.len(),
                rs == self.grammar@.rules,
                all@ == used_symbols(rs.take(i as int)),
            decreases self.grammar.rules@.len() - i,
        {
            let ghost before = all@;
            let rhs: &Vec<usize> = &self.grammar.rules[i].rhs;
            proof {
                assert(rhs@ == rs[i as int].rhs);
                assert(rs.take(i + 1).drop_last() =~= rs.take(i as int));
            }
            let mut k: usize = 0;
            while k < rhs.len()
                invariant
                    k <= rhs@.len(),
                    all@ == before + rhs@.take(k as int),
                decreases rhs@.len() - k,
            {
                all.push(rhs[k]);
                k += 1;
                proof {
                    assert(all@ =~= before + rhs@.take(k as int));
                }
            }
            proof {
                assert(rhs@.take(k as int) =~= rhs@);
            }
            i += 1;
        }
        proof {
            assert(rs.take(i as int) =~= rs);
        }
        all
    }

    /// Puts the rule for the whole input before the other rules.
    fn augment(&mut self, start: usize)
        requires
            old(self).wf(),
            is_symbol(old(self).grammar@, start),
        ensures
            final(self).wf(),
            final(self).input == old(self).input,
            final(self).pos == old(self).pos,
            final(self).warnings == old(self).warnings,
            final(self).grammar@ == augmented(old(self).grammar@, start),
    {
        proof {
            reveal_strlit("$accept");
            reveal_strlit("$end");
            assert("$accept"@.len() != "$end"@.len());
        }
        let accept: usize = self.grammar.intern_symbol("$accept");
        let ghost h = self.grammar@;
        self.grammar.augmented_start = accept;
        proof {
            assert(self.grammar@ =~= (GrammarView { augmented_start: accept, ..h }));
        }
        self.grammar.add_nonterminal(accept);
        let ghost g = self.grammar@;
        let ghost rs = self.grammar.rules@;
        let n: usize = self.grammar.rules.len();
        let mut i: usize = 0;
        let ghost parser0 = *self;
        while i < n
            invariant
                i <= n,
                n == rs.len(),
                n == self.grammar.rules@.len(),
                self.input == old(self).input,
                self.pos == old(self).pos,
                self.line == parser0.line,
                self.warnings == old(self).warnings,
                wf(g),
                g.rules == rule_views(rs),
                self.grammar@ == (GrammarView { rules: rule_views(self.grammar.rules@), ..g }),
                forall|j: int|
                    0 <= j < i ==> (#[trigger] self.grammar.rules@[j])@ == (RuleView {
                        rule_number: (rs[j]@.rule_number + 1) as usize,
                        ..rs[j]@
                    }),
                forall|j: int| i <= j < n ==> (#[trigger] self.grammar.rules@[j]) == rs[j],
            decreases n - i,
        {
            proof {
                assert(g.rules[i as int].rule_number == i);
                assert(rs[i as int]@ == g.rules[i as int]);
            }
            let number: usize = self.grammar.rules[i].rule_number;
            self.grammar.rules[i].rule_number = number + 1;
            i += 1;
        }
        let mut rhs: Vec<usize> = Vec::new();
        rhs.push(start);
        rhs.push(EOF_TOKEN);
        let first = Rule {
            lhs: accept,
            rhs,
            action: String::new(),
            action_line: 0,
            prec_sym: None,
            rule_number: 0,
        };
        proof {
            assert(first@.rhs =~= seq![start, EOF_TOKEN]);
            assert(first@.action =~= Seq::empty());
        }
        self.grammar.rules.insert(0, first);
        proof {
            let h = augmented(old(self).grammar@, start);
            assert(self.grammar@.rules =~= h.rules);
            assert(self.grammar@ =~= h);
            assert(self.grammar.rules@.len() == self.grammar.rules.len());
            assert forall|j: int| 0 <= j < h.rules.len() implies wf_rule(
                h,
                #[trigger] h.rules[j],
            ) by {
                if j > 0 {
                    assert(wf_rule(g, g.rules[j - 1]));
                }
            }
            assert forall|t: usize| #[trigger] h.tokens.dom().contains(t) implies wf_token(
                h,
                t,
                h.tokens[t],
            ) by {
                assert(wf_token(g, t, g.tokens[t]));
            }
        }
    }

    /// Makes the grammar complete once the file is read.
    pub fn finalize(&mut self) -> (r: Result<(), ParseError>)
        requires
            old(self).wf(),
        ensures
            agrees_at_end(*old(self), *final(self), r, completed(old(self).progress())),
            r is Ok && old(self).grammar.augmented_start == EOF_TOKEN ==> complete(
                final(self).grammar@,
            ),
    {
        if !self.classify() {
            return Err(ParseError::Limit);
        }
        let start: usize = match self.grammar.start_symbol {
            Some(start) => start,
            None => {
                return Err(ParseError::Message("no start symbol defined".to_owned()));
            },
        };
        let ghost g = self.grammar@;
        self.augment(start);
        proof {
            let h = self.grammar@;
            assert forall|i: int, k: int|
                1 <= i < h.rules.len() && 0 <= k < h.rules[i].rhs.len() implies (
            h.terminals.contains(#[trigger] h.rules[i].rhs[k]) || h.nonterminals.contains(
                h.rules[i].rhs[k],
            )) by {
                assert(h.rules[i].rhs == g.rules[i - 1].rhs);
                assert(!unclassified(g, g.rules[i - 1].rhs[k]));
            }
        }
        Ok(())
    }

    /// Reads the whole file, from the position on. The result tells a file that is not as
    /// it should be from one that passes a limit.
    pub fn try_parse(&mut self) -> (r: Result<(), ParseError>)
        requires
            old(self).wf(),
        ensures
            agrees_at_end(
                *old(self),
                *final(self),
                r,
                grammar_file(old(self).input@, old(self).progress()),
            ),
            r is Ok && old(self).grammar.augmented_start == EOF_TOKEN ==> complete(
                final(self).grammar@,
            ),
    {
        match self.parse_declarations() {
            Ok(_) => {},
            Err(e) => {
                return Err(e);
            },
        }
        match self.expect_separator() {
            Ok(_) => {},
            Err(e) => {
                return Err(e);
            },
        }
        match self.parse_rules() {
            Ok(_) => {},
            Err(e) => {
                return Err(e);
            },
        }
        self.parse_epilogue();
        self.finalize()
    }

    /// Reads the whole file, from the position on, where nothing in it passes a limit.
    pub fn parse(&mut self) -> (r: Result<(), String>)
        requires
            old(self).wf(),
            !(grammar_file(old(self).input@, old(self).progress()) is Limit),
        ensures
            final(self).wf(),
            final(self).input == old(self).input,
            match r {
                Ok(_) => grammar_file(old(self).input@, old(self).progress()) == Outcome::Done(
                    final(self).progress(),
                ) && (old(self).grammar.augmented_start == EOF_TOKEN ==> complete(
                    final(self).grammar@,
                )),
                Err(m) => grammar_file(old(self).input@, old(self).progress()) == Outcome::Failed(
                    final(self).progress(),
                    m@,
                ),
            },
    {
        match self.try_parse() {
            Ok(_) => Ok(()),
            Err(ParseError::Message(m)) => Err(m),
            Err(ParseError::Limit) => Err(String::new()),
        }
    }
}

// ---------------------------------------------------------------------------
// Symbols in rules
// ---------------------------------------------------------------------------

proof fn lemma_used(rs: Seq<RuleView>, i: int, k: int)
    requires
        0 <= i < rs.len(),
        0 <= k < rs[i].rhs.len(),
    ensures
        exists|j: int| 0 <= j < used_symbols(rs).len() && #[trigger] used_symbols(rs)[j]
            == rs[i].rhs[k],
    decreases rs.len(),
{
    let before = used_symbols(rs.drop_last());
    let all = used_symbols(rs);
    if i < rs.len() - 1 {
        lemma_used(rs.drop_last(), i, k);
        let j = choose|j: int| 0 <= j < before.len() && #[trigger] before[j] == rs[i].rhs[k];
        assert(all[j] == rs[i].rhs[k]);
    } else {
        assert(all[before.len() + k] == rs[i].rhs[k]);
    }
}

proof fn lemma_used_are_symbols(g: GrammarView, rs: Seq<RuleView>, j: int)
    requires
        forall|i: int| 0 <= i < rs.len() ==> wf_rule(g, #[trigger] rs[i]),
        0 <= j < used_symbols(rs).len(),
    ensures
        is_symbol(g, used_symbols(rs)[j]),
    decreases rs.len(),
{
    let before = used_symbols(rs.drop_last());
    if j < before.len() {
        lemma_used_are_symbols(g, rs.drop_last(), j);
    } else {
        assert(wf_rule(g, rs[rs.len() - 1]));
        assert(is_symbol(g, rs.last().rhs[j - before.len()]));
    }
}

proof fn lemma_classified_prefix(g: GrammarView, syms: Seq<usize>, k: int)
    requires
        0 <= k <= syms.len(),
        classified(g, syms.take(k)) is None,
    ensures
        classified(g, syms) is None,
    decreases syms.len() - k,
{
    if k < syms.len() {
        assert(syms.take(k + 1).drop_last() =~= syms.take(k));
        lemma_classified_prefix(g, syms, k + 1);
    } else {
        assert(syms.take(k) =~= syms);
    }
}

/// Whether all symbols and nonterminals of `g` are symbols and nonterminals of `h`.
pub open spec fn extends(g: GrammarView, h: GrammarView) -> bool {
    &&& g.symbols.len() <= h.symbols.len()
    &&& g.nonterminals.subset_of(h.nonterminals)
}

} // verus!
