# bison

A parser generator. It reads a grammar file in the style of yacc, builds SLR(1)
tables for the grammar and writes a parser for it in C. The library is verified
with Verus; the program around it does the input and output.

## Layout

- `src/text.rs`: characters, numbers and strings
- `src/grammar.rs`: grammars and their invariant
- `src/lexer.rs`: the words of a grammar file
- `src/syntax.rs`: what a grammar file means
- `src/parser.rs`: the reader of grammar files
- `src/sets.rs`: FIRST and FOLLOW
- `src/automaton.rs`: items and states
- `src/tables.rs`: the tables
- `src/action.rs`, `src/codegen.rs`: the generated code
- `src/report.rs`: the report on a grammar
- `src/cli.rs`: options, names of files, warnings
- `src/driver.rs`: a whole run
- `src/entries.rs`, `src/language.rs`, `src/machine.rs`: what the entries of the
  tables mean, derivations, and the language that the tables accept
- `src/growth.rs`, `src/numbers.rs`, `src/laws.rs`: laws that relate the parts
- `app/`: the program

## What is proved

The reader gives the grammar that `syntax::grammar_file` says the text denotes,
or the message it says. The tables are those that `tables::tables` gives the
grammar, and each text that is written is given by a specification function, to
the letter.

The machine that the tables drive accepts sentences of the grammar only
(`machine::lemma_accepts_sentences`). Where no token has a precedence and no
conflict is reported, it accepts just the sentences
(`machine::lemma_accepts_language`).

FIRST is exact (`language::law_first_exact`), FOLLOW holds what may stand behind a
nonterminal (`language::law_follow_holds`), and precedence decides between a shift
and a reduction as declared (`entries::lemma_entry_resolved`). The names to which one
list of tokens gives no number get numbers of their own (`numbers::law_list_numbers`).

Two functions of the standard library are taken on trust: `String::push` and
`str::to_uppercase`.
