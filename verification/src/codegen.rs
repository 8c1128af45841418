//! The C code of a parser.

use crate::action::{transform, transformed};
use crate::automaton::{expects, states_of};
use crate::grammar::{c_value, complete, is_symbol, texts, wf, Grammar, GrammarView, Rule};
use crate::tables::{
    has_room, lemma_tables_shaped, lemma_targets, shaped, tables, TableGenerator, TableView,
    ACCEPT_ACTION, ERROR_ACTION,
};
use crate::text::{
    cat, dec, dec_int, join, lemma_cat_step, lemma_join_step, push_i32, push_usize, reads,
};
use vstd::prelude::*;

verus! {

broadcast use {
    vstd::std_specs::hash::group_hash_axioms,
    vstd::std_specs::btree::group_btree_axioms,
};

// ---------------------------------------------------------------------------
// Fixed pieces of code
// ---------------------------------------------------------------------------

/// What a parser begins with.
pub const HEADER: &'static str = "/* A Bison-like parser, generated by rust-bison.  */

#include <stdio.h>
#include <stdlib.h>
#include <string.h>

";

/// How the enumeration of tokens begins.
pub const TOKEN_ENUM: &'static str = "#ifndef YYTOKENTYPE
#define YYTOKENTYPE
enum yytokentype {
";

/// How the enumeration of tokens ends.
pub const TOKEN_ENUM_END: &'static str = "};
#endif

";

/// The type of semantic values where the grammar gives none.
pub const INT_VALUES: &'static str = "#ifndef YYSTYPE
typedef int YYSTYPE;
#define YYSTYPE YYSTYPE
#endif

";

/// How the union of semantic values begins.
pub const UNION: &'static str = "#ifndef YYSTYPE
typedef union YYSTYPE {
";

/// How the union of semantic values ends.
pub const UNION_END: &'static str = "
} YYSTYPE;
#define YYSTYPE YYSTYPE
#endif

";

/// The type of locations, behind the declaration of the value of a token.
pub const LOCATION_TYPE: &'static str = "lval;

typedef struct YYLTYPE {
  int first_line;
  int first_column;
  int last_line;
  int last_column;
} YYLTYPE;

int ";

/// How the search for a token begins.
pub const TOKEN_INDEX: &'static str = "token_to_index(int token) {
  int i;
  for (i = 0; i < ";

/// How the search for a token ends, with the bounds of the stack behind it.
pub const TOKEN_INDEX_END: &'static str = "token_values[i] == token) return i;
  }
  return -1;
}

#ifndef YYMAXDEPTH
#define YYMAXDEPTH 10000
#endif
#ifndef YYINITDEPTH
#define YYINITDEPTH 200
#endif

int ";

/// How the parser's function begins.
pub const PARSE: &'static str = "parse(void) {
  int yystate = 0;
  int yychar = -1; /* empty */
  int yynerrs = 0;
  int yyn, yylen, yyidx;
  int yyss[YYMAXDEPTH];
  YYSTYPE yyvs[YYMAXDEPTH];
  int yyssp = 0;
  YYSTYPE yyval;

  yyss[0] = 0;
  memset(&yyvs[0], 0, sizeof(YYSTYPE));

  for (;;) {
    if (yychar < 0) {
      yychar = ";

/// How the next token is read.
pub const LOOKAHEAD: &'static str = "lex();
      if (yychar < 0) yychar = 0; /* EOF */
    }

    yyidx = ";

/// What is done with a token that no state knows.
pub const UNKNOWN_TOKEN: &'static str = "token_to_index(yychar);
    if (yyidx < 0) {
      goto yyerrlab;
    }

    yyn = ";

/// How the input is accepted.
pub const ACCEPT: &'static str = ") {
      return 0; /* accept */
    }

    if (yyn == ";

/// How the input is refused, and how a shift begins.
pub const REFUSE: &'static str = ") {
      goto yyerrlab;
    }

    if (yyn > 0) {
      /* Shift */
      yyssp++;
      if (yyssp >= YYMAXDEPTH) {
        ";

/// How a shift goes on.
pub const SHIFT: &'static str = "error(\"parser stack overflow\");
        return 2;
      }
      yystate = yyn - 1;
      yyss[yyssp] = yystate;
      yyvs[yyssp] = ";

/// How a shift ends, and how a reduction begins.
pub const REDUCE: &'static str = "lval;
      yychar = -1; /* consumed */
      continue;
    }

    /* Reduce */
    yyn = -(yyn + 1); /* rule number */
    yylen = ";

/// How the actions of the rules begin.
pub const SWITCH: &'static str = "r2[yyn];
    memset(&yyval, 0, sizeof(YYSTYPE));

    switch (yyn) {
";

/// How the actions of the rules end.
pub const SWITCH_END: &'static str = "    default: break;
    }

    yyssp -= yylen;
    yystate = yyss[yyssp];
    { int nt = ";

/// How the next state is found.
pub const NEXT_STATE: &'static str = "r1[yyn];
      int newstate = ";

/// How a reduction ends.
pub const REDUCE_END: &'static str = "goto[yystate][nt];
      if (newstate < 0) goto yyerrlab;
      yyssp++;
      yystate = newstate;
      yyss[yyssp] = yystate;
      yyvs[yyssp] = yyval;
    }
  }

yyerrlab:
  ";

/// How the parser's function ends.
pub const PARSE_END: &'static str = "error(\"syntax error\");
  yynerrs++;
  return 1;
}
";

// ---------------------------------------------------------------------------
// The text of a parser
// ---------------------------------------------------------------------------

/// The prologue, where there is one.
pub open spec fn prologue_text(g: GrammarView) -> Seq<char> {
    if g.prologue.len() == 0 {
        Seq::empty()
    } else {
        "/* Prologue */\n"@ + g.prologue + "\n"@
    }
}

/// Whether the symbol is a token with a name of its own and a number.
pub open spec fn is_named(g: GrammarView, x: usize) -> bool {
    &&& g.tokens.dom().contains(x)
    &&& !g.tokens[x].is_literal
    &&& g.tokens[x].name != "$end"@
    &&& g.tokens[x].name != "error"@
    &&& g.tokens[x].value is Some
}

/// The number of a named token.
pub open spec fn number_of(g: GrammarView, x: usize) -> i32 {
    g.tokens[x].value->0
}

/// Where a token with the number `v` belongs among tokens in the order of their numbers:
/// behind the last with a number that is not higher.
pub open spec fn place_of(g: GrammarView, s: Seq<usize>, v: i32) -> int
    decreases s.len(),
{
    if s.len() == 0 {
        0
    } else if number_of(g, s.last()) <= v {
        s.len() as int
    } else {
        place_of(g, s.drop_last(), v)
    }
}

/// The named tokens among the symbols below `n`, in the order of their numbers; those
/// with one number in the order of the symbols.
pub open spec fn named_tokens(g: GrammarView, n: int) -> Seq<usize>
    decreases n,
{
    if n <= 0 {
        Seq::empty()
    } else {
        let s = named_tokens(g, n - 1);
        let x = (n - 1) as usize;
        if is_named(g, x) {
            s.insert(place_of(g, s, number_of(g, x)), x)
        } else {
            s
        }
    }
}

/// The token in the enumeration.
pub open spec fn enum_line(g: GrammarView, x: usize) -> Seq<char> {
    "  "@ + g.tokens[x].name + " = "@ + dec_int(number_of(g, x) as int) + ",\n"@
}

/// The token as a definition for the preprocessor.
pub open spec fn define_line(g: GrammarView, x: usize) -> Seq<char> {
    "#define "@ + g.tokens[x].name + " "@ + dec_int(number_of(g, x) as int) + "\n"@
}

/// The lines of the enumeration.
pub open spec fn enum_lines(g: GrammarView, s: Seq<usize>) -> Seq<Seq<char>> {
    Seq::new(s.len(), |i: int| enum_line(g, s[i]))
}

/// The definitions of the tokens.
pub open spec fn define_lines(g: GrammarView, s: Seq<usize>) -> Seq<Seq<char>> {
    Seq::new(s.len(), |i: int| define_line(g, s[i]))
}

/// The numbers of the tokens, as an enumeration and as definitions.
pub open spec fn token_text(g: GrammarView) -> Seq<char> {
    let s = named_tokens(g, g.symbols.len() as int);
    if s.len() == 0 {
        "/* Token definitions */\n"@
    } else {
        "/* Token definitions */\n"@ + TOKEN_ENUM@ + cat(enum_lines(g, s)) + TOKEN_ENUM_END@ + cat(
            define_lines(g, s),
        ) + "\n"@
    }
}

/// The type of semantic values.
pub open spec fn value_type_text(g: GrammarView) -> Seq<char> {
    if g.union_code.len() == 0 {
        INT_VALUES@
    } else {
        UNION@ + g.union_code + UNION_END@
    }
}

/// The left-hand sides of the rules with a number below `n`, in the order in which they
/// appear first.
pub open spec fn left_sides(g: GrammarView, n: int) -> Seq<usize>
    decreases n,
{
    if n <= 0 {
        Seq::empty()
    } else {
        let s = left_sides(g, n - 1);
        if s.contains(g.rules[n - 1].lhs) {
            s
        } else {
            s.push(g.rules[n - 1].lhs)
        }
    }
}

/// The left-hand sides of all rules.
pub open spec fn all_left_sides(g: GrammarView) -> Seq<usize> {
    left_sides(g, g.rules.len() as int)
}

/// Whether a state has an action on `t`.
pub open spec fn is_used(actions: Seq<Map<usize, i32>>, t: usize) -> bool {
    exists|k: int| 0 <= k < actions.len() && (#[trigger] actions[k]).dom().contains(t)
}

/// The symbols below `n` on which a state has an action, in order.
pub open spec fn used_symbols(actions: Seq<Map<usize, i32>>, n: int) -> Seq<usize>
    decreases n,
{
    if n <= 0 {
        Seq::empty()
    } else {
        let s = used_symbols(actions, n - 1);
        if is_used(actions, (n - 1) as usize) {
            s.push((n - 1) as usize)
        } else {
            s
        }
    }
}

/// The symbols on which a state has an action.
pub open spec fn all_used(g: GrammarView, v: TableView) -> Seq<usize> {
    used_symbols(v.actions, g.symbols.len() as int)
}

/// The lengths of the rules.
pub open spec fn lengths(g: GrammarView) -> Seq<Seq<char>> {
    Seq::new(g.rules.len(), |i: int| dec(g.rules[i].rhs.len()))
}

/// The left-hand sides of the rules, by their place among all left-hand sides.
pub open spec fn lhs_numbers(g: GrammarView) -> Seq<Seq<char>> {
    Seq::new(
        g.rules.len(),
        |i: int| dec(all_left_sides(g).index_of(g.rules[i].lhs) as nat),
    )
}

/// The numbers of the symbols in the scanner's interface.
pub open spec fn c_values(g: GrammarView, s: Seq<usize>) -> Seq<Seq<char>> {
    Seq::new(s.len(), |i: int| dec_int(c_value(g, s[i]) as int))
}

/// The actions of a state on the symbols.
pub open spec fn action_cells(row: Map<usize, i32>, s: Seq<usize>) -> Seq<Seq<char>> {
    Seq::new(
        s.len(),
        |i: int|
            dec_int(
                if row.dom().contains(s[i]) {
                    row[s[i]] as int
                } else {
                    ERROR_ACTION as int
                },
            ),
    )
}

/// Where to go from a state on the symbols.
pub open spec fn goto_cells(row: Map<usize, usize>, s: Seq<usize>) -> Seq<Seq<char>> {
    Seq::new(
        s.len(),
        |i: int|
            dec_int(
                if row.dom().contains(s[i]) {
                    row[s[i]] as int
                } else {
                    -1
                },
            ),
    )
}

/// A row of a table.
pub open spec fn row_text(cells: Seq<Seq<char>>) -> Seq<char> {
    "  { "@ + join(cells, ", "@) + " },\n"@
}

/// The rows of actions.
pub open spec fn action_rows(g: GrammarView, v: TableView) -> Seq<Seq<char>> {
    Seq::new(v.states.len(), |k: int| row_text(action_cells(v.actions[k], all_used(g, v))))
}

/// The rows of gotos.
pub open spec fn goto_rows(g: GrammarView, v: TableView) -> Seq<Seq<char>> {
    Seq::new(v.states.len(), |k: int| row_text(goto_cells(v.gotos[k], all_left_sides(g))))
}

/// The tables of the rules: their lengths and left-hand sides.
pub open spec fn rule_tables_text(g: GrammarView, p: Seq<char>) -> Seq<char> {
    "static const short "@ + p + "r2[] = {\n  "@ + join(lengths(g), ", "@)
        + "\n};\n\nstatic const short "@ + p + "r1[] = {\n  "@ + join(lhs_numbers(g), ", "@)
        + "\n};\n\n"@
}

/// The sizes of the tables, where `u` is the prefix in upper case.
pub open spec fn sizes_text(g: GrammarView, v: TableView, u: Seq<char>) -> Seq<char> {
    "#define "@ + u + "NTOKENS "@ + dec(all_used(g, v).len()) + "\n#define "@ + u + "NSTATES "@
        + dec(v.states.len()) + "\n#define "@ + u + "NRULES "@ + dec(g.rules.len())
        + "\n#define "@ + u + "NNONTERMS "@ + dec(all_left_sides(g).len()) + "\n\n"@
}

/// The tables of the states: the numbers of the tokens, the actions and the gotos.
pub open spec fn state_tables_text(g: GrammarView, v: TableView, p: Seq<char>) -> Seq<char> {
    "/* Terminal symbol token values */\nstatic const int "@ + p + "token_values[] = {\n  "@ + join(
        c_values(g, all_used(g, v)),
        ", "@,
    ) + "\n};\n\nstatic const int "@ + p + "action[]["@ + dec(all_used(g, v).len()) + "] = {\n"@
        + cat(action_rows(g, v)) + "};\n\nstatic const int "@ + p + "goto[]["@ + dec(
        all_left_sides(g).len(),
    ) + "] = {\n"@ + cat(goto_rows(g, v)) + "};\n\n"@
}

/// All tables.
pub open spec fn tables_text(g: GrammarView, v: TableView, p: Seq<char>, u: Seq<char>) -> Seq<
    char,
> {
    rule_tables_text(g, p) + sizes_text(g, v, u) + state_tables_text(g, v, p)
}

/// What stands ahead of the parser's function.
pub open spec fn declarations_text(p: Seq<char>, u: Seq<char>) -> Seq<char> {
    "YYSTYPE "@ + p + LOCATION_TYPE@ + p + "lex(void);\nvoid "@ + p
        + "error(const char *s);\n\nstatic int "@ + p + TOKEN_INDEX@ + u
        + "NTOKENS; i++) {\n    if ("@ + p + TOKEN_INDEX_END@
}

/// The parser's function up to the actions of the rules.
pub open spec fn parse_text(p: Seq<char>) -> Seq<char> {
    p + PARSE@ + p + LOOKAHEAD@ + p + UNKNOWN_TOKEN@ + p
        + "action[yystate][yyidx];\n\n    if (yyn == "@ + dec_int(ACCEPT_ACTION as int) + ACCEPT@
        + dec_int(ERROR_ACTION as int) + REFUSE@ + p + SHIFT@ + p + REDUCE@ + p + SWITCH@
}

/// The action of rule number `i`. Where the rule has no code, the value of its first
/// symbol becomes its own; an empty rule then has no action, and rule number zero has none
/// at all.
pub open spec fn case_text(g: GrammarView, i: int) -> Seq<char> {
    let r = g.rules[i];
    if i == 0 {
        Seq::empty()
    } else if r.action.len() == 0 {
        if r.rhs.len() == 0 {
            Seq::empty()
        } else {
            "    case "@ + dec(i as nat)
                + ":\n      yyval = yyvs[yyssp - yylen + 1];\n      break;\n"@
        }
    } else {
        "    case "@ + dec(i as nat) + ":\n#line "@ + dec(r.action_line as nat)
            + " \"input.y\"\n      { "@ + transformed(r.action, 0) + " }\n      break;\n"@
    }
}

/// The actions of the rules.
pub open spec fn cases(g: GrammarView) -> Seq<Seq<char>> {
    Seq::new(g.rules.len(), |i: int| case_text(g, i))
}

/// The parser's function behind the actions of the rules.
pub open spec fn parse_end_text(p: Seq<char>) -> Seq<char> {
    SWITCH_END@ + p + NEXT_STATE@ + p + REDUCE_END@ + p + PARSE_END@
}

/// The parser.
pub open spec fn parser_text(g: GrammarView, p: Seq<char>, u: Seq<char>) -> Seq<char> {
    declarations_text(p, u) + parse_text(p) + cat(cases(g)) + parse_end_text(p)
}

/// The epilogue, where there is one.
pub open spec fn epilogue_text(g: GrammarView) -> Seq<char> {
    if g.epilogue.len() == 0 {
        Seq::empty()
    } else {
        "\n/* Epilogue */\n"@ + g.epilogue
    }
}

/// The source file of a parser for the grammar with the given tables, where `p` is the
/// prefix of its names and `u` is the prefix in upper case.
pub open spec fn source_text(g: GrammarView, v: TableView, p: Seq<char>, u: Seq<char>) -> Seq<
    char,
> {
    HEADER@ + prologue_text(g) + token_text(g) + value_type_text(g) + tables_text(g, v, p, u)
        + parser_text(g, p, u) + epilogue_text(g)
}

/// The header file of a parser for the grammar.
pub open spec fn header_text(g: GrammarView, p: Seq<char>, u: Seq<char>) -> Seq<char> {
    "#ifndef "@ + u + "_TAB_H\n#define "@ + u + "_TAB_H\n\n"@ + token_text(g) + value_type_text(g)
        + "extern YYSTYPE "@ + p + "lval;\n\n#endif /* "@ + u + "_TAB_H */\n"@
}

// ---------------------------------------------------------------------------
// Writing a parser
// ---------------------------------------------------------------------------

/// A text in upper case, as `str::to_uppercase` gives it.
pub uninterp spec fn uppercase(s: Seq<char>) -> Seq<char>;

/// `str::to_uppercase`: the text in upper case by the rules of Unicode. Of the result it is
/// said only that it depends on the text alone.
#[verifier::external_body]
pub(crate) fn to_upper(s: &str) -> (r: String)
    ensures
        r@ == uppercase(s@),
{
    s.to_uppercase()
}

/// Whether the string holds no text.
fn no_text(s: &String) -> (b: bool)
    ensures
        b == (s@.len() == 0),
{
    proof {
        reveal_strlit("");
        assert(s@.len() == 0 ==> s@ =~= ""@);
    }
    reads(s, "")
}

/// A number in decimal notation.
fn usize_text(n: usize) -> (s: String)
    ensures
        s@ == dec(n as nat),
{
    let mut s: String = String::new();
    push_usize(&mut s, n);
    proof {
        assert(s@ =~= dec(n as nat));
    }
    s
}

/// A number in decimal notation, with a sign where it is negative.
fn i32_text(i: i32) -> (s: String)
    ensures
        s@ == dec_int(i as int),
{
    let mut s: String = String::new();
    push_i32(&mut s, i);
    proof {
        assert(s@ =~= dec_int(i as int));
    }
    s
}

/// Appends the parts with `, ` between each and the next.
fn push_joined(out: &mut String, parts: &Vec<String>)
    ensures
        final(out)@ == old(out)@ + join(texts(parts@), ", "@),
{
    let ghost all = texts(parts@);
    let mut t: String = String::new();
    let mut i: usize = 0;
    proof {
        assert(join(all.take(0), ", "@) =~= t@);
    }
    while i < parts.len()
        invariant
            i <= parts@.len(),
            all == texts(parts@),
            t@ == join(all.take(i as int), ", "@),
        decreases parts@.len() - i,
    {
        proof {
            lemma_join_step(all, ", "@, i as int);
            assert(all[i as int] == parts@[i as int]@);
        }
        if i > 0 {
            t.append(", ");
            t.append(parts[i].as_str());
        } else {
            t = parts[i].clone();
        }
        i += 1;
    }
    proof {
        assert(all.take(i as int) =~= all);
    }
    out.append(t.as_str());
}

/// The place of `x` in the list; the length of the list where it is not there.
fn place_in(list: &Vec<usize>, x: usize) -> (r: usize)
    ensures
        r <= list@.len(),
        r < list@.len() ==> list@[r as int] == x,
        (r == list@.len()) == !list@.contains(x),
{
    let mut i: usize = 0;
    while i < list.len()
        invariant
            i <= list@.len(),
            forall|j: int| 0 <= j < i ==> list@[j] != x,
        decreases list@.len() - i,
    {
        if list[i] == x {
            return i;
        }
        i += 1;
    }
    i
}

proof fn lemma_left_sides(g: GrammarView, n: int)
    requires
        n <= g.rules.len(),
    ensures
        left_sides(g, n).no_duplicates(),
        left_sides(g, n).len() <= if n <= 0 { 0 } else { n },
        forall|i: int| 0 <= i < n ==> left_sides(g, n).contains((#[trigger] g.rules[i]).lhs),
    decreases n,
{
    if n > 0 {
        lemma_left_sides(g, n - 1);
        let s = left_sides(g, n - 1);
        let t = left_sides(g, n);
        assert forall|i: int| 0 <= i < n implies t.contains((#[trigger] g.rules[i]).lhs) by {
            if i == n - 1 {
                if !s.contains(g.rules[i].lhs) {
                    assert(t[s.len() as int] == g.rules[i].lhs);
                }
            } else {
                assert(s.contains(g.rules[i].lhs));
                let j = choose|j: int| 0 <= j < s.len() && s[j] == g.rules[i].lhs;
                assert(t[j] == g.rules[i].lhs);
            }
        }
    }
}

proof fn lemma_used_symbols(actions: Seq<Map<usize, i32>>, n: int)
    requires
        n <= usize::MAX,
    ensures
        forall|i: int|
            0 <= i < used_symbols(actions, n).len() ==> #[trigger] used_symbols(actions, n)[i] < n,
    decreases n,
{
    if n > 0 {
        lemma_used_symbols(actions, n - 1);
        let s = used_symbols(actions, n - 1);
        let t = used_symbols(actions, n);
        assert forall|i: int| 0 <= i < t.len() implies #[trigger] t[i] < n by {
            if i < s.len() {
                assert(t[i] == s[i]);
            }
        }
    }
}

proof fn lemma_named_tokens(g: GrammarView, n: int)
    requires
        n <= usize::MAX,
    ensures
        forall|i: int|
            0 <= i < named_tokens(g, n).len() ==> is_named(g, #[trigger] named_tokens(g, n)[i]),
    decreases n,
{
    if n > 0 {
        lemma_named_tokens(g, n - 1);
        let s = named_tokens(g, n - 1);
        let t = named_tokens(g, n);
        let x = (n - 1) as usize;
        if is_named(g, x) {
            lemma_place_of(g, s, number_of(g, x));
            let q = place_of(g, s, number_of(g, x));
            assert forall|i: int| 0 <= i < t.len() implies is_named(g, #[trigger] t[i]) by {
                if i < q {
                    assert(t[i] == s[i]);
                } else if i > q {
                    assert(t[i] == s[i - 1]);
                }
            }
        }
    }
}

proof fn lemma_place_of(g: GrammarView, s: Seq<usize>, v: i32)
    ensures
        0 <= place_of(g, s, v) <= s.len(),
    decreases s.len(),
{
    if s.len() > 0 && number_of(g, s.last()) > v {
        lemma_place_of(g, s.drop_last(), v);
    }
}

/// What writes the C code of a parser: the grammar, its tables, and the prefix of the
/// parser's names, as it is and in upper case.
#[derive(Debug)]
pub struct CodeGenerator<'a> {
    pub grammar: &'a Grammar,
    pub table: &'a TableGenerator<'a>,
    pub prefix: String,
    pub upper: String,
}

/// Whether tables can be written out for the grammar: each state has its rows, which speak
/// of symbols, and the numbers of states have room in 32 bits with a sign.
pub open spec fn writable(g: GrammarView, v: TableView) -> bool {
    &&& wf(g)
    &&& shaped(g, v)
    &&& forall|k: int, x: usize|
        0 <= k < v.gotos.len() && #[trigger] v.gotos[k].dom().contains(x) ==> v.gotos[k][x]
            <= i32::MAX
}

/// The tables of a grammar can be written out.
pub proof fn lemma_tables_writable(g: GrammarView)
    requires
        complete(g),
        has_room(g),
    ensures
        writable(g, tables(g)),
{
    lemma_tables_shaped(g);
    lemma_targets(g);
    let v = tables(g);
    assert forall|k: int, x: usize|
        0 <= k < v.gotos.len() && #[trigger] v.gotos[k].dom().contains(x) implies v.gotos[k][x]
        <= i32::MAX by {
        assert(expects(g, states_of(g)[k], x));
    }
}

impl<'a> CodeGenerator<'a> {
    /// Whether the tables can be written out.
    pub open spec fn wf(&self) -> bool {
        writable(self.grammar@, self.table@)
    }

    /// A generator with the given prefix, also in upper case.
    pub fn with_upper(
        grammar: &'a Grammar,
        table: &'a TableGenerator<'a>,
        prefix: String,
        upper: String,
    ) -> (c: CodeGenerator<'a>)
        ensures
            c.grammar == grammar,
            c.table == table,
            c.prefix@ == prefix@,
            c.upper@ == upper@,
            table.ready() && table.grammar == grammar ==> c.wf(),
    {
        proof {
            if table.ready() && table.grammar == grammar {
                lemma_tables_writable(grammar@);
            }
        }
        CodeGenerator { grammar, table, prefix, upper }
    }

    /// A generator with the given prefix.
    pub fn new(grammar: &'a Grammar, table: &'a TableGenerator<'a>, prefix: String) -> (c:
        CodeGenerator<'a>)
        ensures
            c.grammar == grammar,
            c.table == table,
            c.prefix@ == prefix@,
            c.upper@ == uppercase(prefix@),
            table.ready() && table.grammar == grammar ==> c.wf(),
    {
        let upper: String = to_upper(prefix.as_str());
        CodeGenerator::with_upper(grammar, table, prefix, upper)
    }

    /// Writes what a parser begins with.
    pub fn emit_header(&self, out: &mut String)
        ensures
            final(out)@ == old(out)@ + HEADER@,
    {
        out.append(HEADER);
    }

    /// Writes the prologue.
    pub fn emit_prologue(&self, out: &mut String)
        ensures
            final(out)@ == old(out)@ + prologue_text(self.grammar@),
    {
        let ghost before = out@;
        if !no_text(&self.grammar.prologue) {
            let mut t: String = "/* Prologue */\n".to_owned();
            t.append(self.grammar.prologue.as_str());
            t.append("\n");
            out.append(t.as_str());
        } else {
            proof {
                assert(out@ =~= before + Seq::<char>::empty());
            }
        }
    }

    /// Writes the epilogue.
    pub fn emit_epilogue(&self, out: &mut String)
        ensures
            final(out)@ == old(out)@ + epilogue_text(self.grammar@),
    {
        let ghost before = out@;
        if !no_text(&self.grammar.epilogue) {
            let mut t: String = "\n/* Epilogue */\n".to_owned();
            t.append(self.grammar.epilogue.as_str());
            out.append(t.as_str());
        } else {
            proof {
                assert(out@ =~= before + Seq::<char>::empty());
            }
        }
    }

    /// Writes the type of semantic values.
    pub fn emit_yystype(&self, out: &mut String)
        ensures
            final(out)@ == old(out)@ + value_type_text(self.grammar@),
    {
        if !no_text(&self.grammar.union_code) {
            let mut t: String = UNION.to_owned();
            t.append(self.grammar.union_code.as_str());
            t.append(UNION_END);
            out.append(t.as_str());
        } else {
            out.append(INT_VALUES);
        }
    }

    /// The code of a rule with C expressions for values and locations.
    pub fn transform_action(&self, action: &str, _rhs_len: usize) -> (r: String)
        ensures
            r@ == transformed(action@, 0),
    {
        transform(action)
    }

    /// The number of the symbol where it is a named token.
    fn named_number(&self, x: usize) -> (r: Option<i32>)
        ensures
            r is Some == is_named(self.grammar@, x),
            r is Some ==> r->0 == number_of(self.grammar@, x),
    {
        match self.grammar.token_info.get(&x) {
            Some(info) => {
                proof {
                    assert(self.grammar@.tokens[x] == info@);
                }
                if info.is_literal || reads(&info.name, "$end") || reads(&info.name, "error") {
                    None
                } else {
                    info.value
                }
            },
            None => None,
        }
    }

    /// The named tokens in the order of their numbers.
    fn tokens_by_number(&self) -> (tokens: Vec<usize>)
        requires
            wf(self.grammar@),
        ensures
            tokens@ == named_tokens(self.grammar@, self.grammar@.symbols.len() as int),
    {
        let ghost g = self.grammar@;
        let n: usize = self.grammar.symbols.len();
        let mut tokens: Vec<usize> = Vec::new();
        let mut x: usize = 0;
        while x < n
            invariant
                x <= n,
                n == g.symbols.len(),
                g == self.grammar@,
                tokens@ == named_tokens(g, x as int),
            decreases n - x,
        {
            match self.named_number(x) {
                Some(v) => {
                    let ghost before = tokens@;
                    proof {
                        lemma_named_tokens(g, x as int);
                        assert(before.take(before.len() as int) =~= before);
                    }
                    let mut i: usize = tokens.len();
                    let mut higher: bool = true;
                    while i > 0 && higher
                        invariant
                            i <= tokens@.len(),
                            tokens@ == before,
                            g == self.grammar@,
                            forall|j: int| 0 <= j < before.len() ==> is_named(g, #[trigger] before[j]),
                            higher ==> place_of(g, before.take(i as int), v) == place_of(
                                g,
                                before,
                                v,
                            ),
                            !higher ==> i == place_of(g, before, v),
                        decreases i, (if higher { 1int } else { 0 }),
                    {
                        proof {
                            assert(is_named(g, before[i - 1]));
                            assert(before.take(i as int).drop_last() =~= before.take(i - 1));
                            assert(before.take(i as int).last() == before[i - 1]);
                        }
                        match self.named_number(tokens[i - 1]) {
                            Some(w) => {
                                if w <= v {
                                    higher = false;
                                } else {
                                    i -= 1;
                                }
                            },
                            None => {
                                higher = false;
                            },
                        }
                    }
                    tokens.insert(i, x);
                },
                None => {},
            }
            x += 1;
        }
        tokens
    }

    /// Appends a line for each token, with `begin` ahead of its name, `middle` ahead of its
    /// number and `end` behind.
    fn push_token_line(&self, out: &mut String, x: usize, begin: &str, middle: &str, end: &str)
        requires
            is_named(self.grammar@, x),
        ensures
            final(out)@ == old(out)@ + (begin@ + self.grammar@.tokens[x].name + middle@ + dec_int(
                number_of(self.grammar@, x) as int,
            ) + end@),
    {
        match self.grammar.token_info.get(&x) {
            Some(info) => {
                proof {
                    assert(self.grammar@.tokens[x] == info@);
                }
                let mut t: String = begin.to_owned();
                t.append(info.name.as_str());
                t.append(middle);
                match info.value {
                    Some(v) => {
                        push_i32(&mut t, v);
                    },
                    None => {},
                }
                t.append(end);
                out.append(t.as_str());
            },
            None => {},
        }
    }

    /// Writes the numbers of the tokens.
    pub fn emit_token_defines(&self, out: &mut String)
        requires
            wf(self.grammar@),
        ensures
            final(out)@ == old(out)@ + token_text(self.grammar@),
    {
        let ghost g = self.grammar@;
        let tokens: Vec<usize> = self.tokens_by_number();
        let ghost enums = enum_lines(g, tokens@);
        let ghost defines = define_lines(g, tokens@);
        proof {
            lemma_named_tokens(g, g.symbols.len() as int);
        }
        if tokens.len() == 0 {
            out.append("/* Token definitions */\n");
            return;
        }
        let mut first: String = String::new();
        let mut second: String = String::new();
        let mut i: usize = 0;
        proof {
            assert(cat(enums.take(0)) =~= first@);
            assert(cat(defines.take(0)) =~= second@);
        }
        while i < tokens.len()
            invariant
                i <= tokens@.len(),
                g == self.grammar@,
                enums == enum_lines(g, tokens@),
                defines == define_lines(g, tokens@),
                forall|j: int| 0 <= j < tokens@.len() ==> is_named(g, #[trigger] tokens@[j]),
                first@ == cat(enums.take(i as int)),
                second@ == cat(defines.take(i as int)),
            decreases tokens@.len() - i,
        {
            proof {
                lemma_cat_step(enums, i as int);
                lemma_cat_step(defines, i as int);
            }
            self.push_token_line(&mut first, tokens[i], "  ", " = ", ",\n");
            self.push_token_line(&mut second, tokens[i], "#define ", " ", "\n");
            i += 1;
        }
        proof {
            assert(enums.take(i as int) =~= enums);
            assert(defines.take(i as int) =~= defines);
        }
        let mut t: String = "/* Token definitions */\n".to_owned();
        t.append(TOKEN_ENUM);
        t.append(first.as_str());
        t.append(TOKEN_ENUM_END);
        t.append(second.as_str());
        t.append("\n");
        out.append(t.as_str());
    }

    /// The left-hand sides of the rules.
    fn left_side_list(&self) -> (list: Vec<usize>)
        ensures
            list@ == all_left_sides(self.grammar@),
    {
        let ghost g = self.grammar@;
        let mut list: Vec<usize> = Vec::new();
        let mut i: usize = 0;
        while i < self.grammar.rules.len()
            invariant
                i <= self.grammar.rules@.len(),
                g == self.grammar@,
                list@ == left_sides(g, i as int),
            decreases self.grammar.rules@.len() - i,
        {
            proof {
                assert(g.rules[i as int] == self.grammar.rules@[i as int]@);
            }
            let lhs: usize = self.grammar.rules[i].lhs;
            if place_in(&list, lhs) == list.len() {
                list.push(lhs);
            }
            i += 1;
        }
        list
    }

    /// Whether a state has an action on `t`.
    fn has_action(&self, t: usize) -> (r: bool)
        ensures
            r == is_used(self.table@.actions, t),
    {
        let mut k: usize = 0;
        while k < self.table.action_table.len()
            invariant
                k <= self.table.action_table@.len(),
                forall|j: int| 0 <= j < k ==> !(#[trigger] self.table@.actions[j]).dom().contains(t),
            decreases self.table.action_table@.len() - k,
        {
            proof {
                assert(self.table@.actions[k as int] == self.table.action_table@[k as int]@);
            }
            if self.table.action_table[k].contains_key(&t) {
                return true;
            }
            k += 1;
        }
        false
    }

    /// The symbols on which a state has an action.
    fn used_list(&self) -> (list: Vec<usize>)
        requires
            wf(self.grammar@),
        ensures
            list@ == all_used(self.grammar@, self.table@),
            forall|i: int| 0 <= i < list@.len() ==> is_symbol(self.grammar@, #[trigger] list@[i]),
    {
        let ghost v = self.table@;
        let n: usize = self.grammar.symbols.len();
        let mut list: Vec<usize> = Vec::new();
        let mut x: usize = 0;
        while x < n
            invariant
                x <= n,
                n == self.grammar@.symbols.len(),
                v == self.table@,
                list@ == used_symbols(v.actions, x as int),
            decreases n - x,
        {
            if self.has_action(x) {
                list.push(x);
            }
            x += 1;
        }
        proof {
            lemma_used_symbols(v.actions, n as int);
        }
        list
    }

    /// Writes the tables of the rules.
    fn emit_rule_tables(&self, out: &mut String, sides: &Vec<usize>)
        requires
            sides@ == all_left_sides(self.grammar@),
        ensures
            final(out)@ == old(out)@ + rule_tables_text(self.grammar@, self.prefix@),
    {
        let ghost g = self.grammar@;
        proof {
            lemma_left_sides(g, g.rules.len() as int);
        }
        let mut sizes: Vec<String> = Vec::new();
        let mut numbers: Vec<String> = Vec::new();
        let mut i: usize = 0;
        while i < self.grammar.rules.len()
            invariant
                i <= self.grammar.rules@.len(),
                g == self.grammar@,
                sides@ == all_left_sides(g),
                sides@.no_duplicates(),
                forall|i: int|
                    0 <= i < g.rules.len() ==> sides@.contains((#[trigger] g.rules[i]).lhs),
                sizes@.len() == i,
                numbers@.len() == i,
                forall|j: int| 0 <= j < i ==> (#[trigger] sizes@[j])@ == lengths(g)[j],
                forall|j: int| 0 <= j < i ==> (#[trigger] numbers@[j])@ == lhs_numbers(g)[j],
            decreases self.grammar.rules@.len() - i,
        {
            proof {
                assert(g.rules[i as int] == self.grammar.rules@[i as int]@);
            }
            let rule: &Rule = &self.grammar.rules[i];
            let at: usize = place_in(sides, rule.lhs);
            proof {
                assert(sides@.contains(g.rules[i as int].lhs));
                let j = sides@.index_of(rule.lhs);
                assert(sides@[j] == rule.lhs);
                assert(j == at);
            }
            sizes.push(usize_text(rule.rhs.len()));
            numbers.push(usize_text(at));
            i += 1;
        }
        proof {
            assert(texts(sizes@) =~= lengths(g));
            assert(texts(numbers@) =~= lhs_numbers(g));
        }
        let mut t: String = "static const short ".to_owned();
        t.append(self.prefix.as_str());
        t.append("r2[] = {\n  ");
        push_joined(&mut t, &sizes);
        t.append("\n};\n\nstatic const short ");
        t.append(self.prefix.as_str());
        t.append("r1[] = {\n  ");
        push_joined(&mut t, &numbers);
        t.append("\n};\n\n");
        out.append(t.as_str());
    }

    /// Writes the sizes of the tables.
    fn emit_sizes(&self, out: &mut String, used: &Vec<usize>, sides: &Vec<usize>)
        requires
            sides@ == all_left_sides(self.grammar@),
            used@ == all_used(self.grammar@, self.table@),
        ensures
            final(out)@ == old(out)@ + sizes_text(self.grammar@, self.table@, self.upper@),
    {
        proof {
            assert(self.table@.states.len() == self.table.states@.len());
            assert(self.grammar@.rules.len() == self.grammar.rules@.len());
        }
        let mut t: String = "#define ".to_owned();
        t.append(self.upper.as_str());
        t.append("NTOKENS ");
        push_usize(&mut t, used.len());
        t.append("\n#define ");
        t.append(self.upper.as_str());
        t.append("NSTATES ");
        push_usize(&mut t, self.table.states.len());
        t.append("\n#define ");
        t.append(self.upper.as_str());
        t.append("NRULES ");
        push_usize(&mut t, self.grammar.rules.len());
        t.append("\n#define ");
        t.append(self.upper.as_str());
        t.append("NNONTERMS ");
        push_usize(&mut t, sides.len());
        t.append("\n\n");
        out.append(t.as_str());
    }

    /// Appends the row of actions of state number `k`.
    fn push_action_row(&self, out: &mut String, k: usize, used: &Vec<usize>)
        requires
            k < self.table.action_table@.len(),
        ensures
            final(out)@ == old(out)@ + row_text(
                action_cells(self.table@.actions[k as int], used@),
            ),
    {
        let ghost row = self.table@.actions[k as int];
        proof {
            assert(row == self.table.action_table@[k as int]@);
        }
        let mut cells: Vec<String> = Vec::new();
        let mut i: usize = 0;
        while i < used.len()
            invariant
                i <= used@.len(),
                k < self.table.action_table@.len(),
                row == self.table.action_table@[k as int]@,
                cells@.len() == i,
                forall|j: int| 0 <= j < i ==> (#[trigger] cells@[j])@ == action_cells(row, used@)[j],
            decreases used@.len() - i,
        {
            let a: i32 = match self.table.action_table[k].get(&used[i]) {
                Some(a) => *a,
                None => ERROR_ACTION,
            };
            cells.push(i32_text(a));
            i += 1;
        }
        proof {
            assert(texts(cells@) =~= action_cells(row, used@));
        }
        let mut t: String = "  { ".to_owned();
        push_joined(&mut t, &cells);
        t.append(" },\n");
        out.append(t.as_str());
    }

    /// Appends the row of gotos of state number `k`.
    fn push_goto_row(&self, out: &mut String, k: usize, sides: &Vec<usize>)
        requires
            k < self.table.goto_table@.len(),
            forall|x: usize| #[trigger]
                self.table@.gotos[k as int].dom().contains(x) ==> self.table@.gotos[k as int][x]
                    <= i32::MAX,
        ensures
            final(out)@ == old(out)@ + row_text(
                goto_cells(self.table@.gotos[k as int], sides@),
            ),
    {
        let ghost row = self.table@.gotos[k as int];
        proof {
            assert(row == self.table.goto_table@[k as int]@);
        }
        let mut cells: Vec<String> = Vec::new();
        let mut i: usize = 0;
        while i < sides.len()
            invariant
                i <= sides@.len(),
                k < self.table.goto_table@.len(),
                row == self.table.goto_table@[k as int]@,
                forall|x: usize| #[trigger] row.dom().contains(x) ==> row[x] <= i32::MAX,
                cells@.len() == i,
                forall|j: int| 0 <= j < i ==> (#[trigger] cells@[j])@ == goto_cells(row, sides@)[j],
            decreases sides@.len() - i,
        {
            let to: i32 = match self.table.goto_table[k].get(&sides[i]) {
                Some(to) => {
                    proof {
                        assert(row.dom().contains(sides@[i as int]));
                    }
                    *to as i32
                },
                None => -1,
            };
            cells.push(i32_text(to));
            i += 1;
        }
        proof {
            assert(texts(cells@) =~= goto_cells(row, sides@));
        }
        let mut t: String = "  { ".to_owned();
        push_joined(&mut t, &cells);
        t.append(" },\n");
        out.append(t.as_str());
    }

    /// Writes the tables of the states.
    fn emit_state_tables(&self, out: &mut String, used: &Vec<usize>, sides: &Vec<usize>)
        requires
            self.wf(),
            sides@ == all_left_sides(self.grammar@),
            used@ == all_used(self.grammar@, self.table@),
            forall|i: int| 0 <= i < used@.len() ==> is_symbol(self.grammar@, #[trigger] used@[i]),
        ensures
            final(out)@ == old(out)@ + state_tables_text(
                self.grammar@,
                self.table@,
                self.prefix@,
            ),
    {
        let ghost g = self.grammar@;
        let ghost v = self.table@;
        let mut values: Vec<String> = Vec::new();
        let mut i: usize = 0;
        while i < used.len()
            invariant
                i <= used@.len(),
                g == self.grammar@,
                forall|i: int| 0 <= i < used@.len() ==> is_symbol(g, #[trigger] used@[i]),
                values@.len() == i,
                forall|j: int| 0 <= j < i ==> (#[trigger] values@[j])@ == c_values(g, used@)[j],
            decreases used@.len() - i,
        {
            values.push(i32_text(self.grammar.token_c_value(used[i])));
            i += 1;
        }
        let ghost arows = action_rows(g, v);
        let ghost grows = goto_rows(g, v);
        let mut actions: String = String::new();
        let mut gotos: String = String::new();
        let mut k: usize = 0;
        proof {
            assert(texts(values@) =~= c_values(g, used@));
            assert(cat(arows.take(0)) =~= actions@);
            assert(cat(grows.take(0)) =~= gotos@);
            assert(v.states.len() == self.table.states@.len());
            assert(v.actions.len() == self.table.action_table@.len());
            assert(v.gotos.len() == self.table.goto_table@.len());
        }
        while k < self.table.states.len()
            invariant
                k <= self.table.states@.len(),
                g == self.grammar@,
                v == self.table@,
                writable(g, v),
                v.states.len() == self.table.states@.len(),
                v.actions.len() == self.table.action_table@.len(),
                v.gotos.len() == self.table.goto_table@.len(),
                sides@ == all_left_sides(g),
                used@ == all_used(g, v),
                arows == action_rows(g, v),
                grows == goto_rows(g, v),
                actions@ == cat(arows.take(k as int)),
                gotos@ == cat(grows.take(k as int)),
            decreases self.table.states@.len() - k,
        {
            proof {
                lemma_cat_step(arows, k as int);
                lemma_cat_step(grows, k as int);
            }
            self.push_action_row(&mut actions, k, used);
            self.push_goto_row(&mut gotos, k, sides);
            k += 1;
        }
        proof {
            assert(arows.take(k as int) =~= arows);
            assert(grows.take(k as int) =~= grows);
        }
        let mut t: String = "/* Terminal symbol token values */\nstatic const int ".to_owned();
        t.append(self.prefix.as_str());
        t.append("token_values[] = {\n  ");
        push_joined(&mut t, &values);
        t.append("\n};\n\nstatic const int ");
        t.append(self.prefix.as_str());
        t.append("action[][");
        push_usize(&mut t, used.len());
        t.append("] = {\n");
        t.append(actions.as_str());
        t.append("};\n\nstatic const int ");
        t.append(self.prefix.as_str());
        t.append("goto[][");
        push_usize(&mut t, sides.len());
        t.append("] = {\n");
        t.append(gotos.as_str());
        t.append("};\n\n");
        out.append(t.as_str());
    }

    /// Writes all tables.
    pub fn emit_tables(&self, out: &mut String)
        requires
            self.wf(),
        ensures
            final(out)@ == old(out)@ + tables_text(
                self.grammar@,
                self.table@,
                self.prefix@,
                self.upper@,
            ),
    {
        let ghost before = out@;
        let sides: Vec<usize> = self.left_side_list();
        let used: Vec<usize> = self.used_list();
        self.emit_rule_tables(out, &sides);
        self.emit_sizes(out, &used, &sides);
        self.emit_state_tables(out, &used, &sides);
        proof {
            let a = rule_tables_text(self.grammar@, self.prefix@);
            let b = sizes_text(self.grammar@, self.table@, self.upper@);
            let c = state_tables_text(self.grammar@, self.table@, self.prefix@);
            assert(before + a + b + c =~= before + (a + b + c));
        }
    }

    /// Appends the action of rule number `i`.
    fn push_case(&self, out: &mut String, i: usize)
        requires
            i < self.grammar.rules@.len(),
        ensures
            final(out)@ == old(out)@ + case_text(self.grammar@, i as int),
    {
        let ghost before = out@;
        proof {
            assert(self.grammar@.rules[i as int] == self.grammar.rules@[i as int]@);
            assert(before + Seq::<char>::empty() =~= before);
        }
        if i == 0 {
            return;
        }
        let rule: &Rule = &self.grammar.rules[i];
        if no_text(&rule.action) {
            if rule.rhs.len() > 0 {
                let mut t: String = "    case ".to_owned();
                push_usize(&mut t, i);
                t.append(":\n      yyval = yyvs[yyssp - yylen + 1];\n      break;\n");
                out.append(t.as_str());
            }
            return;
        }
        let code: String = self.transform_action(rule.action.as_str(), rule.rhs.len());
        let mut t: String = "    case ".to_owned();
        push_usize(&mut t, i);
        t.append(":\n#line ");
        push_usize(&mut t, rule.action_line);
        t.append(" \"input.y\"\n      { ");
        t.append(code.as_str());
        t.append(" }\n      break;\n");
        out.append(t.as_str());
    }

    /// Writes the parser.
    pub fn emit_parser(&self, out: &mut String)
        ensures
            final(out)@ == old(out)@ + parser_text(self.grammar@, self.prefix@, self.upper@),
    {
        let ghost g = self.grammar@;
        let p: &str = self.prefix.as_str();
        let mut a: String = "YYSTYPE ".to_owned();
        a.append(p);
        a.append(LOCATION_TYPE);
        a.append(p);
        a.append("lex(void);\nvoid ");
        a.append(p);
        a.append("error(const char *s);\n\nstatic int ");
        a.append(p);
        a.append(TOKEN_INDEX);
        a.append(self.upper.as_str());
        a.append("NTOKENS; i++) {\n    if (");
        a.append(p);
        a.append(TOKEN_INDEX_END);

        let mut b: String = self.prefix.clone();
        b.append(PARSE);
        b.append(p);
        b.append(LOOKAHEAD);
        b.append(p);
        b.append(UNKNOWN_TOKEN);
        b.append(p);
        b.append("action[yystate][yyidx];\n\n    if (yyn == ");
        push_i32(&mut b, ACCEPT_ACTION);
        b.append(ACCEPT);
        push_i32(&mut b, ERROR_ACTION);
        b.append(REFUSE);
        b.append(p);
        b.append(SHIFT);
        b.append(p);
        b.append(REDUCE);
        b.append(p);
        b.append(SWITCH);

        let ghost all = cases(g);
        let mut c: String = String::new();
        let mut i: usize = 0;
        proof {
            assert(cat(all.take(0)) =~= c@);
        }
        while i < self.grammar.rules.len()
            invariant
                i <= self.grammar.rules@.len(),
                g == self.grammar@,
                all == cases(g),
                c@ == cat(all.take(i as int)),
            decreases self.grammar.rules@.len() - i,
        {
            proof {
                lemma_cat_step(all, i as int);
            }
            self.push_case(&mut c, i);
            i += 1;
        }
        proof {
            assert(all.take(i as int) =~= all);
        }

        let mut d: String = SWITCH_END.to_owned();
        d.append(p);
        d.append(NEXT_STATE);
        d.append(p);
        d.append(REDUCE_END);
        d.append(p);
        d.append(PARSE_END);

        a.append(b.as_str());
        a.append(c.as_str());
        a.append(d.as_str());
        out.append(a.as_str());
    }

    /// The source file of the parser.
    pub fn generate_source(&self) -> (out: String)
        requires
            self.wf(),
        ensures
            out@ == source_text(self.grammar@, self.table@, self.prefix@, self.upper@),
    {
        let mut out: String = String::new();
        self.emit_header(&mut out);
        proof {
            assert(out@ =~= HEADER@);
        }
        self.emit_prologue(&mut out);
        self.emit_token_defines(&mut out);
        self.emit_yystype(&mut out);
        self.emit_tables(&mut out);
        self.emit_parser(&mut out);
        self.emit_epilogue(&mut out);
        out
    }

    /// The header file of the parser.
    pub fn generate_header(&self) -> (out: String)
        requires
            wf(self.grammar@),
        ensures
            out@ == header_text(self.grammar@, self.prefix@, self.upper@),
    {
        let mut out: String = "#ifndef ".to_owned();
        out.append(self.upper.as_str());
        out.append("_TAB_H\n#define ");
        out.append(self.upper.as_str());
        out.append("_TAB_H\n\n");
        self.emit_token_defines(&mut out);
        self.emit_yystype(&mut out);
        out.append("extern YYSTYPE ");
        out.append(self.prefix.as_str());
        out.append("lval;\n\n#endif /* ");
        out.append(self.upper.as_str());
        out.append("_TAB_H */\n");
        out
    }
}

} // verus!
