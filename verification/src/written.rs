//! What the files of a parser hold.

use crate::action::transformed;
use crate::automaton::{listed, LR0Item};
use crate::codegen::{
    action_cells, action_rows, all_left_sides, all_used, c_values, case_text, cases,
    declarations_text, define_line, define_lines, enum_line, enum_lines, epilogue_text, goto_cells,
    goto_rows, header_text, is_named, left_sides, lengths, lhs_numbers, named_tokens,
    parse_end_text, parse_text, parser_text, prologue_text, row_text, rule_tables_text, sizes_text,
    source_text, state_tables_text, tables_text, token_text, value_type_text, HEADER, TOKEN_ENUM,
    TOKEN_ENUM_END, UNION, UNION_END,
};
use crate::grammar::{c_value, is_symbol, GrammarView};
use crate::laws::{law_named_tokens, law_used_symbols};
use crate::machine::action_in;
use crate::report::{
    action_text, action_texts, goto_text, goto_texts, item_text, item_texts, marked_symbol,
    marked_symbols, names, nonterminal_text, nonterminal_texts, on_left, on_right, repeated,
    report_text, rule_head, rule_text, rule_texts, spaced, state_text, state_texts, terminal_text,
    terminal_texts,
};
use crate::tables::{TableView, ACCEPT_ACTION, ERROR_ACTION};
use crate::text::{cat, dec, dec_int, join, pad_left};
use vstd::prelude::*;

verus! {

// ---------------------------------------------------------------------------
// Texts that are put together
// ---------------------------------------------------------------------------

/// Whether the text holds the part.
#[verifier::opaque]
pub open spec fn holds(text: Seq<char>, part: Seq<char>) -> bool {
    exists|a: Seq<char>, b: Seq<char>| #[trigger] (a + part + b) == text
}

/// Pieces one after the other are those before and those behind.
pub proof fn law_cat(a: Seq<Seq<char>>, b: Seq<Seq<char>>)
    ensures
        cat(a + b) == cat(a) + cat(b),
    decreases b.len(),
{
    if b.len() == 0 {
        assert(a + b =~= a);
        assert(cat(a) + cat(b) =~= cat(a));
    } else {
        assert((a + b).drop_last() =~= a + b.drop_last());
        law_cat(a, b.drop_last());
        assert(cat(a) + (cat(b.drop_last()) + b.last()) =~= cat(a) + cat(b.drop_last()) + b.last());
    }
}

/// Pieces with a separator between them are those before and those behind, with a separator
/// between the two.
pub proof fn law_join(a: Seq<Seq<char>>, b: Seq<Seq<char>>, sep: Seq<char>)
    requires
        a.len() > 0,
        b.len() > 0,
    ensures
        join(a + b, sep) == join(a, sep) + sep + join(b, sep),
        a.len() == 1 ==> join(a, sep) == a[0],
    decreases b.len(),
{
    assert((a + b).drop_last() =~= a + b.drop_last());
    assert((a + b).last() == b.last());
    if b.len() == 1 {
        assert(a + b.drop_last() =~= a);
    } else {
        law_join(a, b.drop_last(), sep);
        assert(join(a, sep) + sep + (join(b.drop_last(), sep) + sep + b.last()) =~= join(a, sep)
            + sep + join(b.drop_last(), sep) + sep + b.last());
    }
}

proof fn lemma_holds_in(a: Seq<char>, text: Seq<char>, b: Seq<char>, part: Seq<char>)
    requires
        holds(text, part),
    ensures
        holds(a + text + b, part),
{
    reveal(holds);
    let (x, y) = choose|x: Seq<char>, y: Seq<char>| #[trigger] (x + part + y) == text;
    assert((a + x) + part + (y + b) =~= a + text + b);
}

proof fn lemma_holds_behind(a: Seq<char>, text: Seq<char>, part: Seq<char>)
    requires
        holds(text, part),
    ensures
        holds(a + text, part),
{
    lemma_holds_in(a, text, Seq::empty(), part);
    assert(a + text + Seq::<char>::empty() =~= a + text);
}

proof fn lemma_holds_ahead(text: Seq<char>, b: Seq<char>, part: Seq<char>)
    requires
        holds(text, part),
    ensures
        holds(text + b, part),
{
    lemma_holds_in(Seq::empty(), text, b, part);
    assert(Seq::<char>::empty() + text + b =~= text + b);
}

proof fn lemma_holds_self(text: Seq<char>)
    ensures
        holds(text, text),
{
    reveal(holds);
    assert(Seq::<char>::empty() + text + Seq::<char>::empty() =~= text);
}

/// A text holds what is put in the middle of it.
proof fn lemma_holds_middle(a: Seq<char>, part: Seq<char>, b: Seq<char>)
    ensures
        holds(a + part + b, part),
        holds(a + part, part),
        holds(part + b, part),
{
    lemma_holds_self(part);
    lemma_holds_in(a, part, b, part);
    lemma_holds_behind(a, part, part);
    lemma_holds_ahead(part, b, part);
}

proof fn lemma_holds_trans(a: Seq<char>, b: Seq<char>, c: Seq<char>)
    requires
        holds(a, b),
        holds(b, c),
    ensures
        holds(a, c),
{
    reveal(holds);
    let (x, y) = choose|x: Seq<char>, y: Seq<char>| #[trigger] (x + b + y) == a;
    lemma_holds_in(x, b, y, c);
}

proof fn lemma_holds_piece(parts: Seq<Seq<char>>, i: int)
    requires
        0 <= i < parts.len(),
    ensures
        holds(cat(parts), parts[i]),
{
    let a = parts.take(i);
    let b = parts.skip(i + 1);
    let one = seq![parts[i]];
    assert(parts =~= a + one + b);
    law_cat(a + one, b);
    law_cat(a, one);
    assert(one.drop_last() =~= Seq::empty());
    assert(cat(Seq::<Seq<char>>::empty()) =~= Seq::<char>::empty());
    assert(cat(one) =~= parts[i]);
    lemma_holds_self(parts[i]);
    lemma_holds_in(cat(a), parts[i], cat(b), parts[i]);
}

// ---------------------------------------------------------------------------
// The source file
// ---------------------------------------------------------------------------

proof fn lemma_source(g: GrammarView, v: TableView, p: Seq<char>, u: Seq<char>)
    ensures
        holds(source_text(g, v, p, u), prologue_text(g)),
        holds(source_text(g, v, p, u), token_text(g)),
        holds(source_text(g, v, p, u), value_type_text(g)),
        holds(source_text(g, v, p, u), tables_text(g, v, p, u)),
        holds(source_text(g, v, p, u), parser_text(g, p, u)),
        holds(source_text(g, v, p, u), epilogue_text(g)),
{
    let a = HEADER@;
    let b = prologue_text(g);
    let c = token_text(g);
    let d = value_type_text(g);
    let e = tables_text(g, v, p, u);
    let f = parser_text(g, p, u);
    let h = epilogue_text(g);
    lemma_seven(a, b, c, d, e, f, h);
}

proof fn lemma_seven(
    a: Seq<char>,
    b: Seq<char>,
    c: Seq<char>,
    d: Seq<char>,
    e: Seq<char>,
    f: Seq<char>,
    h: Seq<char>,
)
    ensures
        holds(a + b + c + d + e + f + h, b),
        holds(a + b + c + d + e + f + h, c),
        holds(a + b + c + d + e + f + h, d),
        holds(a + b + c + d + e + f + h, e),
        holds(a + b + c + d + e + f + h, f),
        holds(a + b + c + d + e + f + h, h),
{
    let ab = a + b;
    let abc = ab + c;
    let abcd = abc + d;
    let abcde = abcd + e;
    let abcdef = abcde + f;
    lemma_holds_middle(a, b, c);
    lemma_holds_ahead(abc, d, b);
    lemma_holds_ahead(abcd, e, b);
    lemma_holds_ahead(abcde, f, b);
    lemma_holds_ahead(abcdef, h, b);
    lemma_holds_middle(ab, c, d);
    lemma_holds_ahead(abcd, e, c);
    lemma_holds_ahead(abcde, f, c);
    lemma_holds_ahead(abcdef, h, c);
    lemma_holds_middle(abc, d, e);
    lemma_holds_ahead(abcde, f, d);
    lemma_holds_ahead(abcdef, h, d);
    lemma_holds_middle(abcd, e, f);
    lemma_holds_ahead(abcdef, h, e);
    lemma_holds_middle(abcde, f, h);
    lemma_holds_middle(abcdef, h, h);
}

/// The source file holds the prologue, the epilogue and the code of the type of the values
/// as they stand in the grammar file.
pub proof fn law_source_code(g: GrammarView, v: TableView, p: Seq<char>, u: Seq<char>)
    ensures
        holds(source_text(g, v, p, u), g.prologue),
        holds(source_text(g, v, p, u), g.epilogue),
        holds(source_text(g, v, p, u), g.union_code),
{
    let all = source_text(g, v, p, u);
    lemma_source(g, v, p, u);
    if g.prologue.len() == 0 {
        assert(g.prologue =~= prologue_text(g));
    } else {
        lemma_holds_self(g.prologue);
        lemma_holds_in("/* Prologue */\n"@, g.prologue, "\n"@, g.prologue);
        lemma_holds_trans(all, prologue_text(g), g.prologue);
    }
    if g.epilogue.len() == 0 {
        assert(g.epilogue =~= epilogue_text(g));
    } else {
        lemma_holds_self(g.epilogue);
        lemma_holds_behind("\n/* Epilogue */\n"@, g.epilogue, g.epilogue);
        lemma_holds_trans(all, epilogue_text(g), g.epilogue);
    }
    if g.union_code.len() == 0 {
        lemma_holds_middle(g.union_code, g.union_code, all);
        assert(g.union_code + all =~= all);
    } else {
        lemma_holds_self(g.union_code);
        lemma_holds_in(UNION@, g.union_code, UNION_END@, g.union_code);
        lemma_holds_trans(all, value_type_text(g), g.union_code);
    }
}

/// For each rule with code, the source file holds a case with the number of the rule and the
/// translation of its code, with the line of the code; for each other rule with symbols, but
/// the one for the whole input, a case in which its value is that of its first symbol.
pub proof fn law_source_actions(g: GrammarView, v: TableView, p: Seq<char>, u: Seq<char>, i: int)
    requires
        1 <= i < g.rules.len(),
    ensures
        g.rules[i].action.len() > 0 ==> holds(
            source_text(g, v, p, u),
            "    case "@ + dec(i as nat) + ":\n#line "@ + dec(g.rules[i].action_line as nat)
                + " \"input.y\"\n      { "@ + transformed(g.rules[i].action, 0)
                + " }\n      break;\n"@,
        ),
        g.rules[i].action.len() == 0 && g.rules[i].rhs.len() > 0 ==> holds(
            source_text(g, v, p, u),
            "    case "@ + dec(i as nat)
                + ":\n      yyval = yyvs[yyssp - yylen + 1];\n      break;\n"@,
        ),
{
    lemma_source(g, v, p, u);
    lemma_holds_piece(cases(g), i);
    assert(cases(g)[i] == case_text(g, i));
    lemma_holds_in(
        declarations_text(p, u) + parse_text(p),
        cat(cases(g)),
        parse_end_text(p),
        case_text(g, i),
    );
    lemma_holds_trans(source_text(g, v, p, u), parser_text(g, p, u), case_text(g, i));
}

/// For each named token the source file and the header file hold a definition of its name
/// as its number, and a line of the enumeration.
pub proof fn law_tokens_written(
    g: GrammarView,
    v: TableView,
    p: Seq<char>,
    u: Seq<char>,
    x: usize,
)
    requires
        g.symbols.len() <= usize::MAX,
        is_symbol(g, x),
        g.tokens.dom().contains(x),
        !g.tokens[x].is_literal,
        g.tokens[x].name != "$end"@,
        g.tokens[x].name != "error"@,
        g.tokens[x].value is Some,
    ensures
        ({
            let n = g.tokens[x].value->0;
            let define = "#define "@ + g.tokens[x].name + " "@ + dec_int(n as int) + "\n"@;
            let line = "  "@ + g.tokens[x].name + " = "@ + dec_int(n as int) + ",\n"@;
            &&& holds(source_text(g, v, p, u), define)
            &&& holds(source_text(g, v, p, u), line)
            &&& holds(header_text(g, p, u), define)
            &&& holds(header_text(g, p, u), line)
        }),
{
    let n = g.symbols.len() as int;
    let s = named_tokens(g, n);
    law_named_tokens(g, n);
    assert(is_named(g, x));
    assert(s.contains(x));
    let i = choose|i: int| 0 <= i < s.len() && s[i] == x;
    let define = define_line(g, x);
    let line = enum_line(g, x);
    lemma_holds_piece(enum_lines(g, s), i);
    lemma_holds_piece(define_lines(g, s), i);
    assert(enum_lines(g, s)[i] == line);
    assert(define_lines(g, s)[i] == define);
    let title = "/* Token definitions */\n"@;
    let text = token_text(g);
    assert(holds(text, line)) by {
        lemma_holds_in(
            title + TOKEN_ENUM@,
            cat(enum_lines(g, s)),
            TOKEN_ENUM_END@ + cat(define_lines(g, s)) + "\n"@,
            line,
        );
        assert(title + TOKEN_ENUM@ + cat(enum_lines(g, s)) + (TOKEN_ENUM_END@ + cat(
            define_lines(g, s),
        ) + "\n"@) =~= text);
    }
    lemma_holds_in(
        title + TOKEN_ENUM@ + cat(enum_lines(g, s)) + TOKEN_ENUM_END@,
        cat(define_lines(g, s)),
        "\n"@,
        define,
    );
    assert(holds(text, define));
    lemma_source(g, v, p, u);
    lemma_holds_trans(source_text(g, v, p, u), text, define);
    lemma_holds_trans(source_text(g, v, p, u), text, line);
    lemma_header(g, p, u);
    lemma_holds_trans(header_text(g, p, u), text, define);
    lemma_holds_trans(header_text(g, p, u), text, line);
}

proof fn lemma_header(g: GrammarView, p: Seq<char>, u: Seq<char>)
    ensures
        holds(header_text(g, p, u), token_text(g)),
        holds(header_text(g, p, u), value_type_text(g)),
{
    let a = "#ifndef "@ + u + "_TAB_H\n#define "@ + u + "_TAB_H\n\n"@;
    let t = token_text(g);
    let w = value_type_text(g);
    let z = "extern YYSTYPE "@ + p + "lval;\n\n#endif /* "@ + u + "_TAB_H */\n"@;
    lemma_holds_middle(a, t, w + z);
    lemma_holds_middle(a + t, w, z);
    assert(a + t + (w + z) =~= header_text(g, p, u));
    assert((a + t) + w + z =~= header_text(g, p, u));
}

// ---------------------------------------------------------------------------
// The tables in the source file
// ---------------------------------------------------------------------------

/// The left-hand sides are listed once each, in the order in which they appear first.
pub proof fn law_left_sides(g: GrammarView, n: int)
    requires
        0 <= n <= g.rules.len(),
    ensures
        left_sides(g, n).no_duplicates(),
        forall|i: int| 0 <= i < n ==> left_sides(g, n).contains((#[trigger] g.rules[i]).lhs),
        forall|j: int|
            0 <= j < left_sides(g, n).len() ==> appears(g, n, #[trigger] left_sides(g, n)[j]),
        forall|j: int, k: int|
            0 <= j < k < left_sides(g, n).len() ==> first_rule(g, #[trigger] left_sides(g, n)[j])
                < first_rule(g, #[trigger] left_sides(g, n)[k]),
    decreases n,
{
    if n > 0 {
        law_left_sides(g, n - 1);
        let s = left_sides(g, n - 1);
        let t = left_sides(g, n);
        let x = g.rules[n - 1].lhs;
        assert forall|i: int| 0 <= i < n implies t.contains((#[trigger] g.rules[i]).lhs) by {
            if i < n - 1 {
                assert(s.contains(g.rules[i].lhs));
                let j = choose|j: int| 0 <= j < s.len() && s[j] == g.rules[i].lhs;
                assert(t[j] == g.rules[i].lhs);
            } else if !s.contains(x) {
                assert(t[s.len() as int] == x);
            }
        }
        assert forall|j: int| 0 <= j < t.len() implies appears(g, n, #[trigger] t[j]) by {
            if j < s.len() {
                assert(appears(g, n - 1, s[j]));
                let i = choose|i: int| 0 <= i < n - 1 && (#[trigger] g.rules[i]).lhs == s[j];
                assert(g.rules[i].lhs == t[j]);
            } else {
                assert(g.rules[n - 1].lhs == t[j]);
            }
        }
        if !s.contains(x) {
            assert forall|j: int, k: int| 0 <= j < k < t.len() implies first_rule(
                g,
                #[trigger] t[j],
            ) < first_rule(g, #[trigger] t[k]) by {
                if k < s.len() {
                    assert(s[j] == t[j] && s[k] == t[k]);
                } else {
                    assert(appears(g, n - 1, s[j]));
                    lemma_first_rule(g, n - 1, s[j]);
                    lemma_first_rule(g, n, x);
                    let f = first_rule(g, x);
                    if f < n - 1 {
                        assert(s.contains(g.rules[f].lhs));
                    }
                }
            }
        }
    }
}

/// Whether one of the first `n` rules has the symbol on the left.
pub open spec fn appears(g: GrammarView, n: int, x: usize) -> bool {
    exists|i: int| 0 <= i < n && (#[trigger] g.rules[i]).lhs == x
}

/// Whether rule number `i` is the first that has the symbol on the left.
pub open spec fn is_first_rule(g: GrammarView, x: usize, i: int) -> bool {
    &&& 0 <= i < g.rules.len()
    &&& g.rules[i].lhs == x
    &&& forall|j: int| 0 <= j < i ==> (#[trigger] g.rules[j]).lhs != x
}

/// The number of the first rule that has the symbol on the left.
pub open spec fn first_rule(g: GrammarView, x: usize) -> int {
    choose|i: int| is_first_rule(g, x, i)
}

proof fn lemma_first_rule(g: GrammarView, n: int, x: usize)
    requires
        0 <= n <= g.rules.len(),
        appears(g, n, x),
    ensures
        is_first_rule(g, x, first_rule(g, x)),
        0 <= first_rule(g, x) < n,
    decreases n,
{
    let i = choose|i: int| 0 <= i < n && (#[trigger] g.rules[i]).lhs == x;
    if appears(g, n - 1, x) {
        lemma_first_rule(g, n - 1, x);
    } else {
        assert(i == n - 1);
        assert forall|j: int| 0 <= j < n - 1 implies (#[trigger] g.rules[j]).lhs != x by {}
        assert(is_first_rule(g, x, n - 1));
        let f = first_rule(g, x);
        assert(is_first_rule(g, x, f));
        if f >= n {
            assert(g.rules[n - 1].lhs != x);
        }
    }
}

/// Whether the tables, as they are written, have the actions on the terminal in the column
/// `c`: its number stands there in the list of numbers, and each row has there the action of
/// its state, which is to refuse the input where the state has none.
pub open spec fn is_column_of(g: GrammarView, v: TableView, t: usize, c: int) -> bool {
    &&& 0 <= c < all_used(g, v).len()
    &&& c_values(g, all_used(g, v))[c] == dec_int(c_value(g, t) as int)
    &&& forall|k: int|
        0 <= k < v.states.len() ==> action_cells(#[trigger] v.actions[k], all_used(g, v))[c]
            == dec_int(action_in(v, k, t))
}

/// Each terminal on which a state has an action has one column in the table of actions, which
/// is that of its number in the list of numbers; and the source file holds the rows and the
/// list.
pub proof fn law_actions_written(
    g: GrammarView,
    v: TableView,
    p: Seq<char>,
    u: Seq<char>,
    k: int,
    t: usize,
)
    requires
        g.symbols.len() <= usize::MAX,
        v.actions.len() == v.states.len(),
        0 <= k < v.states.len(),
        is_symbol(g, t),
        v.actions[k].dom().contains(t),
    ensures
        exists|c: int| #[trigger] is_column_of(g, v, t, c),
        all_used(g, v).no_duplicates(),
        holds(
            source_text(g, v, p, u),
            "  { "@ + join(action_cells(v.actions[k], all_used(g, v)), ", "@) + " },\n"@,
        ),
        holds(
            source_text(g, v, p, u),
            p + "token_values[] = {\n  "@ + join(c_values(g, all_used(g, v)), ", "@) + "\n};\n"@,
        ),
{
    let n = g.symbols.len() as int;
    let s = all_used(g, v);
    law_used_symbols(v.actions, n);
    assert(crate::codegen::is_used(v.actions, t));
    assert(s.contains(t));
    let c = choose|c: int| 0 <= c < s.len() && s[c] == t;
    assert forall|j: int| 0 <= j < v.states.len() implies action_cells(
        #[trigger] v.actions[j],
        s,
    )[c] == dec_int(action_in(v, j, t)) by {}
    assert(is_column_of(g, v, t, c));
    lemma_source(g, v, p, u);
    lemma_state_tables(g, v, p, u);
    lemma_holds_piece(action_rows(g, v), k);
    assert(action_rows(g, v)[k] == row_text(action_cells(v.actions[k], s)));
    lemma_holds_trans(source_text(g, v, p, u), cat(action_rows(g, v)), action_rows(g, v)[k]);
}

proof fn lemma_state_tables(g: GrammarView, v: TableView, p: Seq<char>, u: Seq<char>)
    ensures
        holds(source_text(g, v, p, u), cat(action_rows(g, v))),
        holds(source_text(g, v, p, u), cat(goto_rows(g, v))),
        holds(
            source_text(g, v, p, u),
            p + "token_values[] = {\n  "@ + join(c_values(g, all_used(g, v)), ", "@) + "\n};\n"@,
        ),
        holds(source_text(g, v, p, u), rule_tables_text(g, p)),
        holds(source_text(g, v, p, u), sizes_text(g, v, u)),
{
    let all = source_text(g, v, p, u);
    let t = tables_text(g, v, p, u);
    let rules = rule_tables_text(g, p);
    let sizes = sizes_text(g, v, u);
    let states = state_tables_text(g, v, p);
    lemma_source(g, v, p, u);
    lemma_holds_middle(rules, sizes, states);
    lemma_holds_middle(rules + sizes, states, states);
    lemma_holds_middle(rules, rules, sizes);
    lemma_holds_ahead(rules + sizes, states, rules);
    lemma_holds_trans(all, t, rules);
    lemma_holds_trans(all, t, sizes);
    lemma_holds_trans(all, t, states);
    let values = join(c_values(g, all_used(g, v)), ", "@);
    let n = dec(all_used(g, v).len());
    let actions = cat(action_rows(g, v));
    let m = dec(all_left_sides(g).len());
    let gotos = cat(goto_rows(g, v));
    lemma_state_parts(p, values, n, actions, m, gotos);
    lemma_holds_trans(all, states, p + "token_values[] = {\n  "@ + values + "\n};\n"@);
    lemma_holds_trans(all, states, actions);
    lemma_holds_trans(all, states, gotos);
}

proof fn lemma_state_parts(
    p: Seq<char>,
    values: Seq<char>,
    n: Seq<char>,
    actions: Seq<char>,
    m: Seq<char>,
    gotos: Seq<char>,
)
    ensures
        ({
            let all = "/* Terminal symbol token values */\nstatic const int "@ + p
                + "token_values[] = {\n  "@ + values + "\n};\n\nstatic const int "@ + p
                + "action[]["@ + n + "] = {\n"@ + actions + "};\n\nstatic const int "@ + p
                + "goto[]["@ + m + "] = {\n"@ + gotos + "};\n\n"@;
            &&& holds(all, p + "token_values[] = {\n  "@ + values + "\n};\n"@)
            &&& holds(all, actions)
            &&& holds(all, gotos)
        }),
{
    reveal_strlit("\n};\n\nstatic const int ");
    reveal_strlit("\n};\n");
    let head = "/* Terminal symbol token values */\nstatic const int "@;
    let open = "token_values[] = {\n  "@;
    let close = "\n};\n\nstatic const int "@;
    let short = "\n};\n"@;
    let list = p + open + values + short;
    let rest = close.skip(4);
    assert(close =~= short + rest);
    let first = head + p + open + values + close;
    assert(first =~= head + list + rest);
    lemma_holds_middle(head, list, rest);
    let mid = first + p + "action[]["@ + n + "] = {\n"@;
    lemma_holds_ahead(first, p, list);
    lemma_holds_ahead(first + p, "action[]["@, list);
    lemma_holds_ahead(first + p + "action[]["@, n, list);
    lemma_holds_ahead(first + p + "action[]["@ + n, "] = {\n"@, list);
    let second = mid + actions;
    lemma_holds_middle(mid, actions, actions);
    lemma_holds_ahead(mid, actions, list);
    let c = "};\n\nstatic const int "@;
    let third = second + c + p + "goto[]["@ + m + "] = {\n"@;
    lemma_holds_ahead(second, c, list);
    lemma_holds_ahead(second + c, p, list);
    lemma_holds_ahead(second + c + p, "goto[]["@, list);
    lemma_holds_ahead(second + c + p + "goto[]["@, m, list);
    lemma_holds_ahead(second + c + p + "goto[]["@ + m, "] = {\n"@, list);
    lemma_holds_ahead(second, c, actions);
    lemma_holds_ahead(second + c, p, actions);
    lemma_holds_ahead(second + c + p, "goto[]["@, actions);
    lemma_holds_ahead(second + c + p + "goto[]["@, m, actions);
    lemma_holds_ahead(second + c + p + "goto[]["@ + m, "] = {\n"@, actions);
    let last = third + gotos;
    lemma_holds_ahead(third, gotos, list);
    lemma_holds_ahead(third, gotos, actions);
    lemma_holds_middle(third, gotos, gotos);
    lemma_holds_ahead(last, "};\n\n"@, list);
    lemma_holds_ahead(last, "};\n\n"@, actions);
    lemma_holds_ahead(last, "};\n\n"@, gotos);
}

/// Whether the tables, as they are written, have where to go on the left-hand side of rule
/// number `i` in the column `c`: the rule has this column, and the row of state number `k`
/// has there the state to go to, or -1 where there is none.
pub open spec fn is_goto_column(g: GrammarView, v: TableView, k: int, i: int, c: int) -> bool {
    let x = g.rules[i].lhs;
    let row = goto_cells(v.gotos[k], all_left_sides(g));
    &&& 0 <= c < row.len()
    &&& lhs_numbers(g)[i] == dec(c as nat)
    &&& v.gotos[k].dom().contains(x) ==> row[c] == dec(v.gotos[k][x] as nat)
    &&& !v.gotos[k].dom().contains(x) ==> row[c] == seq!['-'] + dec(1)
}

/// For each rule the tables of the rules have its length and the column of its left-hand
/// side, and each row of the table of gotos has in this column where to go from the state on
/// the left-hand side, and -1 where there is no such place.
pub proof fn law_goto_columns(g: GrammarView, v: TableView, k: int, i: int)
    requires
        0 <= k < v.states.len(),
        0 <= i < g.rules.len(),
    ensures
        lengths(g)[i] == dec(g.rules[i].rhs.len()),
        exists|c: int| #[trigger] is_goto_column(g, v, k, i, c),
{
    let x = g.rules[i].lhs;
    let s = all_left_sides(g);
    law_left_sides(g, g.rules.len() as int);
    assert(s.contains(g.rules[i].lhs));
    let c = s.index_of(x);
    assert(s[c] == x);
    assert(is_goto_column(g, v, k, i, c));
}

/// The source file holds the rows of the table of gotos, and the lengths and the columns of
/// the rules.
pub proof fn law_gotos_written(g: GrammarView, v: TableView, p: Seq<char>, u: Seq<char>, k: int)
    requires
        0 <= k < v.states.len(),
    ensures
        holds(
            source_text(g, v, p, u),
            "  { "@ + join(goto_cells(v.gotos[k], all_left_sides(g)), ", "@) + " },\n"@,
        ),
        holds(source_text(g, v, p, u), "r2[] = {\n  "@ + join(lengths(g), ", "@) + "\n};\n"@),
        holds(source_text(g, v, p, u), "r1[] = {\n  "@ + join(lhs_numbers(g), ", "@) + "\n};\n"@),
{
    let row = goto_cells(v.gotos[k], all_left_sides(g));
    lemma_state_tables(g, v, p, u);
    lemma_holds_piece(goto_rows(g, v), k);
    assert(goto_rows(g, v)[k] == row_text(row));
    lemma_holds_trans(source_text(g, v, p, u), cat(goto_rows(g, v)), row_text(row));
    let a = join(lengths(g), ", "@);
    let b = join(lhs_numbers(g), ", "@);
    lemma_rule_parts(p, a, b);
    let all = rule_tables_text(g, p);
    lemma_holds_trans(source_text(g, v, p, u), all, "r2[] = {\n  "@ + a + "\n};\n"@);
    lemma_holds_trans(source_text(g, v, p, u), all, "r1[] = {\n  "@ + b + "\n};\n"@);
}

proof fn lemma_rule_parts(p: Seq<char>, a: Seq<char>, b: Seq<char>)
    ensures
        ({
            let all = "static const short "@ + p + "r2[] = {\n  "@ + a
                + "\n};\n\nstatic const short "@ + p + "r1[] = {\n  "@ + b + "\n};\n\n"@;
            &&& holds(all, "r2[] = {\n  "@ + a + "\n};\n"@)
            &&& holds(all, "r1[] = {\n  "@ + b + "\n};\n"@)
        }),
{
    reveal_strlit("\n};\n");
    reveal_strlit("\n};\n\n");
    reveal_strlit("\n};\n\nstatic const short ");
    let short = "\n};\n"@;
    let close = "\n};\n\nstatic const short "@;
    let last = "\n};\n\n"@;
    assert(close =~= short + close.skip(4));
    assert(last =~= short + last.skip(4));
    let head = "static const short "@ + p;
    let two = "r2[] = {\n  "@;
    let one = "r1[] = {\n  "@;
    let first = two + a + short;
    let second = one + b + short;
    let begin = head + two + a + close;
    assert(begin =~= head + first + close.skip(4));
    lemma_holds_middle(head, first, close.skip(4));
    lemma_holds_ahead(begin, p, first);
    lemma_holds_ahead(begin + p, one, first);
    lemma_holds_ahead(begin + p + one, b, first);
    lemma_holds_ahead(begin + p + one + b, last, first);
    let all = begin + p + one + b + last;
    assert(all =~= (begin + p) + second + last.skip(4));
    lemma_holds_middle(begin + p, second, last.skip(4));
}

// ---------------------------------------------------------------------------
// The report
// ---------------------------------------------------------------------------

/// The rules that have a symbol on the left are listed once each, in the order of their
/// numbers.
pub proof fn law_on_left(g: GrammarView, x: usize, n: int)
    requires
        0 <= n <= g.rules.len(),
    ensures
        forall|i: int, j: int|
            0 <= i < j < on_left(g, x, n).len() ==> #[trigger] on_left(g, x, n)[i]
                < #[trigger] on_left(g, x, n)[j],
        forall|r: int| #[trigger]
            on_left(g, x, n).contains(r) <==> 0 <= r < n && g.rules[r].lhs == x,
    decreases n,
{
    if n > 0 {
        law_on_left(g, x, n - 1);
        let s = on_left(g, x, n - 1);
        let t = on_left(g, x, n);
        assert forall|r: int| #[trigger] t.contains(r) <==> 0 <= r < n && g.rules[r].lhs == x by {
            if t.contains(r) {
                let i = choose|i: int| 0 <= i < t.len() && t[i] == r;
                if i < s.len() {
                    assert(s[i] == r);
                    assert(s.contains(r));
                }
            }
            if 0 <= r < n && g.rules[r].lhs == x {
                if r < n - 1 {
                    assert(s.contains(r));
                    let i = choose|i: int| 0 <= i < s.len() && s[i] == r;
                    assert(t[i] == r);
                } else {
                    assert(t[s.len() as int] == r);
                }
            }
        }
        assert forall|i: int, j: int| 0 <= i < j < t.len() implies #[trigger] t[i]
            < #[trigger] t[j] by {
            if j < s.len() {
                assert(s[i] < s[j]);
            } else {
                assert(s.contains(s[i]));
            }
        }
    }
}

/// How often a symbol stands in a list.
pub open spec fn times(syms: Seq<usize>, x: usize) -> nat {
    syms.to_multiset().count(x)
}

proof fn lemma_repeated(syms: Seq<usize>, x: usize, r: int)
    ensures
        repeated(syms, x, r).len() == times(syms, x),
        forall|i: int| 0 <= i < repeated(syms, x, r).len() ==> #[trigger] repeated(syms, x, r)[i]
            == r,
    decreases syms.len(),
{
    broadcast use vstd::seq_lib::group_to_multiset_ensures;

    if syms.len() > 0 {
        lemma_repeated(syms.drop_last(), x, r);
        assert(syms =~= syms.drop_last().push(syms.last()));
    }
}

/// The rules that have a symbol on the right are listed in the order of their numbers, each
/// as often as the symbol stands in it.
pub proof fn law_on_right(g: GrammarView, x: usize, n: int)
    requires
        0 <= n <= g.rules.len(),
    ensures
        forall|i: int, j: int|
            0 <= i < j < on_right(g, x, n).len() ==> #[trigger] on_right(g, x, n)[i]
                <= #[trigger] on_right(g, x, n)[j],
        forall|r: int| #[trigger]
            on_right(g, x, n).to_multiset().count(r) == if 0 <= r < n {
                times(g.rules[r].rhs, x)
            } else {
                0
            },
    decreases n,
{
    broadcast use vstd::seq_lib::group_to_multiset_ensures;

    if n > 0 {
        law_on_right(g, x, n - 1);
        let s = on_right(g, x, n - 1);
        let m = repeated(g.rules[n - 1].rhs, x, n - 1);
        lemma_repeated(g.rules[n - 1].rhs, x, n - 1);
        lemma_all_one(m, n - 1);
        vstd::seq_lib::lemma_multiset_commutative(s, m);
        let t = on_right(g, x, n);
        assert(t == s + m);
        assert forall|i: int, j: int| 0 <= i < j < t.len() implies #[trigger] t[i]
            <= #[trigger] t[j] by {
            if i < s.len() {
                assert(s.to_multiset().count(s[i]) > 0) by {
                    assert(s.contains(s[i]));
                }
                if j < s.len() {
                    assert(s[i] <= s[j]);
                } else {
                    assert(m[j - s.len()] == n - 1);
                }
            } else {
                assert(m[i - s.len()] == n - 1);
                assert(m[j - s.len()] == n - 1);
            }
        }
    } else {
        assert(on_right(g, x, n) =~= Seq::empty());
    }
}

proof fn lemma_all_one(m: Seq<int>, r: int)
    requires
        forall|i: int| 0 <= i < m.len() ==> #[trigger] m[i] == r,
    ensures
        m.to_multiset().count(r) == m.len(),
        forall|q: int| q != r ==> #[trigger] m.to_multiset().count(q) == 0,
    decreases m.len(),
{
    broadcast use vstd::seq_lib::group_to_multiset_ensures;

    if m.len() > 0 {
        let b = m.drop_last();
        assert forall|i: int| 0 <= i < b.len() implies #[trigger] b[i] == r by {
            assert(m[i] == r);
        }
        lemma_all_one(b, r);
        assert(m =~= b.push(m[m.len() - 1]));
    }
}

/// The report holds a line on each rule: its number, its left-hand side, and the symbols of
/// its right-hand side.
pub proof fn law_report_rules(g: GrammarView, v: TableView, i: int)
    requires
        0 <= i < g.rules.len(),
    ensures
        holds(
            report_text(g, v),
            dec(i as nat) + (" "@ + g.symbols[g.rules[i].lhs as int] + ": "@ + (if g.rules[i].rhs.len() == 0 {
                "/* empty */"@
            } else {
                join(names(g, g.rules[i].rhs), " "@)
            }) + "\n"@),
        ),
{
    let body = if g.rules[i].rhs.len() == 0 {
        "/* empty */"@
    } else {
        join(names(g, g.rules[i].rhs), " "@)
    };
    let rest = " "@ + g.symbols[g.rules[i].lhs as int] + ": "@ + body + "\n"@;
    let part = dec(i as nat) + rest;
    let blanks = law_pad_left(dec(i as nat), 4);
    let line = rule_text(g, i);
    assert("  "@ + blanks + part =~= line);
    lemma_holds_middle("  "@ + blanks, part, part);
    lemma_holds_piece(rule_texts(g), i);
    assert(rule_texts(g)[i] == line);
    lemma_report(g, v);
    lemma_holds_trans(report_text(g, v), cat(rule_texts(g)), line);
    lemma_holds_trans(report_text(g, v), line, part);
}

proof fn lemma_report(g: GrammarView, v: TableView)
    ensures
        holds(report_text(g, v), cat(rule_texts(g))),
        holds(report_text(g, v), cat(terminal_texts(g))),
        holds(report_text(g, v), cat(nonterminal_texts(g))),
        holds(report_text(g, v), cat(state_texts(g, v))),
{
    let a = "Grammar\n\n"@;
    let b = cat(rule_texts(g));
    let c = "\nTerminals, with rules where they appear\n\n"@;
    let d = cat(terminal_texts(g));
    let e = "\nNonterminals, with rules where they appear\n\n"@;
    let f = cat(nonterminal_texts(g));
    let h = "\n"@;
    let k = cat(state_texts(g, v));
    let seven = a + b + c + d + e + f + h;
    lemma_seven(a, b, c, d, e, f, h);
    lemma_holds_ahead(seven, k, b);
    lemma_holds_ahead(seven, k, d);
    lemma_holds_ahead(seven, k, f);
    lemma_holds_middle(seven, k, k);
}

/// The report holds a part on each state, and in it a line on each action of the state: what
/// is done when the symbol is next.
pub proof fn law_report_actions(g: GrammarView, v: TableView, k: int, x: usize)
    requires
        0 <= k < v.states.len(),
        is_symbol(g, x),
        v.actions[k].dom().contains(x),
    ensures
        holds(report_text(g, v), state_text(g, v, k)),
        ({
            let a = v.actions[k][x];
            let head = "    "@ + g.symbols[x as int];
            &&& a == ACCEPT_ACTION ==> holds(state_text(g, v, k), head + "  accept\n"@)
            &&& a == ERROR_ACTION ==> holds(state_text(g, v, k), head + "  error\n"@)
            &&& a > 0 ==> holds(
                state_text(g, v, k),
                head + ("  shift, and go to state "@ + dec((a - 1) as nat) + "\n"@),
            )
            &&& a < 0 && a != ERROR_ACTION ==> holds(
                state_text(g, v, k),
                head + ("  reduce using rule "@ + dec((-a - 1) as nat) + "\n"@),
            )
        }),
{
    lemma_report(g, v);
    lemma_holds_piece(state_texts(g, v), k);
    assert(state_texts(g, v)[k] == state_text(g, v, k));
    lemma_holds_trans(report_text(g, v), cat(state_texts(g, v)), state_text(g, v, k));
    lemma_state(g, v, k);
    let line = action_text(g, v.actions[k], x);
    lemma_holds_piece(action_texts(g, v.actions[k]), x as int);
    assert(action_texts(g, v.actions[k])[x as int] == line);
    lemma_holds_trans(state_text(g, v, k), cat(action_texts(g, v.actions[k])), line);
}

/// The part on a state holds a line on each place to go to, and one on each of its items.
pub proof fn law_report_states(g: GrammarView, v: TableView, k: int, x: usize, i: int)
    requires
        0 <= k < v.states.len(),
        is_symbol(g, x),
        v.gotos[k].dom().contains(x),
        0 <= i < listed(v.states[k]).len(),
    ensures
        holds(
            state_text(g, v, k),
            "    "@ + g.symbols[x as int] + "  go to state "@ + dec(v.gotos[k][x] as nat) + "\n"@,
        ),
        holds(state_text(g, v, k), item_text(g, listed(v.states[k])[i])),
{
    lemma_state(g, v, k);
    let line = goto_text(g, v.gotos[k], x);
    lemma_holds_piece(goto_texts(g, v.gotos[k]), x as int);
    assert(goto_texts(g, v.gotos[k])[x as int] == line);
    lemma_holds_trans(state_text(g, v, k), cat(goto_texts(g, v.gotos[k])), line);
    let items = listed(v.states[k]);
    lemma_holds_piece(item_texts(g, items), i);
    assert(item_texts(g, items)[i] == item_text(g, items[i]));
    lemma_holds_trans(state_text(g, v, k), cat(item_texts(g, items)), item_text(g, items[i]));
}

proof fn lemma_state(g: GrammarView, v: TableView, k: int)
    ensures
        holds(state_text(g, v, k), cat(item_texts(g, listed(v.states[k])))),
        holds(state_text(g, v, k), cat(action_texts(g, v.actions[k]))),
        holds(state_text(g, v, k), cat(goto_texts(g, v.gotos[k]))),
{
    lemma_seven(
        "\nState "@,
        dec(k as nat),
        "\n\n"@,
        cat(item_texts(g, listed(v.states[k]))),
        "\n"@,
        cat(action_texts(g, v.actions[k])),
        cat(goto_texts(g, v.gotos[k])),
    );
}

/// A text is padded with spaces before it, up to the width and no further.
pub proof fn law_pad_left(s: Seq<char>, width: nat) -> (blanks: Seq<char>)
    ensures
        pad_left(s, width) == blanks + s,
        forall|k: int| 0 <= k < blanks.len() ==> #[trigger] blanks[k] == ' ',
        s.len() >= width ==> blanks.len() == 0,
        s.len() < width ==> blanks.len() + s.len() == width,
    decreases width - s.len(),
{
    if s.len() >= width {
        assert(Seq::<char>::empty() + s =~= s);
        Seq::empty()
    } else {
        let more = law_pad_left(seq![' '] + s, width);
        let blanks = more.push(' ');
        assert(more + (seq![' '] + s) =~= blanks + s);
        assert forall|k: int| 0 <= k < blanks.len() implies #[trigger] blanks[k] == ' ' by {
            if k < more.len() {
                assert(more[k] == ' ');
            }
        }
        blanks
    }
}

/// The report holds a line on each terminal that a rule has on the right, with its number in
/// the scanner's interface and the rules; and one on each nonterminal with the rules that have
/// it on the left and on the right.
pub proof fn law_report_symbols(g: GrammarView, v: TableView, x: usize)
    requires
        is_symbol(g, x),
    ensures
        ({
            let n = g.rules.len() as int;
            &&& g.terminals.contains(x) && on_right(g, x, n).len() > 0 ==> holds(
                report_text(g, v),
                "  "@ + g.symbols[x as int] + " ("@ + dec_int(c_value(g, x) as int) + ")"@ + spaced(
                    on_right(g, x, n),
                ) + "\n"@,
            )
            &&& g.nonterminals.contains(x) && on_left(g, x, n).len() > 0 ==> holds(
                report_text(g, v),
                "  "@ + g.symbols[x as int] + " (on left:"@ + spaced(on_left(g, x, n))
                    + ", on right:"@ + spaced(on_right(g, x, n)) + ")\n"@,
            )
        }),
{
    lemma_report(g, v);
    lemma_holds_piece(terminal_texts(g), x as int);
    lemma_holds_piece(nonterminal_texts(g), x as int);
    assert(terminal_texts(g)[x as int] == terminal_text(g, x));
    assert(nonterminal_texts(g)[x as int] == nonterminal_text(g, x));
    lemma_holds_trans(report_text(g, v), cat(terminal_texts(g)), terminal_text(g, x));
    lemma_holds_trans(report_text(g, v), cat(nonterminal_texts(g)), nonterminal_text(g, x));
}

/// The source file holds the sizes of its tables: how many terminals have a column, how many
/// states and rules there are, and how many symbols stand on the left of a rule.
pub proof fn law_sizes_written(g: GrammarView, v: TableView, p: Seq<char>, u: Seq<char>)
    ensures
        holds(
            source_text(g, v, p, u),
            "#define "@ + u + "NTOKENS "@ + dec(all_used(g, v).len()) + "\n#define "@ + u
                + "NSTATES "@ + dec(v.states.len()) + "\n#define "@ + u + "NRULES "@ + dec(
                g.rules.len(),
            ) + "\n#define "@ + u + "NNONTERMS "@ + dec(all_left_sides(g).len()) + "\n\n"@,
        ),
{
    lemma_state_tables(g, v, p, u);
}

/// The number of a symbol in the scanner's interface is that of its token, if it has one; a
/// literal without one has the code of the character that it quotes.
pub proof fn law_c_value(g: GrammarView, x: usize, c: char)
    requires
        is_symbol(g, x),
    ensures
        g.tokens.dom().contains(x) && g.tokens[x].value is Some ==> Some(c_value(g, x))
            == g.tokens[x].value,
        !g.tokens.dom().contains(x) && g.symbols[x as int] == seq!['\'', c, '\''] && c != '\\'
            ==> c_value(g, x) == c as i32,
{
    let name = seq!['\'', c, '\''];
    assert(name.subrange(1, name.len() - 1) =~= seq![c]);
}

/// The names of the symbols from `a` up to `b`, with spaces between them, and one behind
/// where more symbols follow.
spec fn run_of_names(ns: Seq<Seq<char>>, a: int, b: int) -> Seq<char> {
    if a >= b {
        Seq::empty()
    } else {
        join(ns.subrange(a, b), " "@) + if b < ns.len() {
            " "@
        } else {
            Seq::empty()
        }
    }
}

proof fn lemma_run_of_names(ns: Seq<Seq<char>>, a: int, j: int)
    requires
        0 <= a <= j < ns.len(),
    ensures
        run_of_names(ns, a, j + 1) == run_of_names(ns, a, j) + ns[j] + if j + 1 < ns.len() {
            " "@
        } else {
            Seq::empty()
        },
{
    let all = ns.subrange(a, j + 1);
    assert(all.drop_last() =~= ns.subrange(a, j));
    assert(all.last() == ns[j]);
    if a == j {
        assert(all.len() == 1);
        assert(Seq::<char>::empty() + ns[j] =~= ns[j]);
    } else {
        assert(join(all, " "@) == join(ns.subrange(a, j), " "@) + " "@ + ns[j]);
    }
}

proof fn lemma_marked(g: GrammarView, it: LR0Item, j: int)
    requires
        0 <= j <= g.rules[it.rule as int].rhs.len(),
    ensures
        ({
            let ns = names(g, g.rules[it.rule as int].rhs);
            cat(marked_symbols(g, it).take(j)) == if j <= it.dot {
                run_of_names(ns, 0, j)
            } else {
                run_of_names(ns, 0, it.dot as int) + ". "@ + run_of_names(ns, it.dot as int, j)
            }
        }),
    decreases j,
{
    let rhs = g.rules[it.rule as int].rhs;
    let ns = names(g, rhs);
    let ms = marked_symbols(g, it);
    let d = it.dot as int;
    if j == 0 {
        assert(ms.take(0) =~= Seq::empty());
        assert(cat(ms.take(0)) =~= Seq::<char>::empty());
    } else {
        lemma_marked(g, it, j - 1);
        assert(ms.take(j).drop_last() =~= ms.take(j - 1));
        assert(ms.take(j).last() == marked_symbol(g, it, j - 1));
        let end = if j < ns.len() {
            " "@
        } else {
            Seq::<char>::empty()
        };
        let before = cat(ms.take(j - 1));
        assert(ns[j - 1] == g.symbols[rhs[j - 1] as int]);
        if j <= d {
            lemma_run_of_names(ns, 0, j - 1);
            assert(before + (Seq::<char>::empty() + ns[j - 1] + end) =~= before + ns[j - 1] + end);
        } else if j - 1 == d {
            lemma_run_of_names(ns, d, j - 1);
            assert(run_of_names(ns, d, j) =~= ns[j - 1] + end);
            assert(before + (". "@ + ns[j - 1] + end) =~= before + ". "@ + (ns[j - 1] + end));
        } else {
            lemma_run_of_names(ns, d, j - 1);
            assert(before + (Seq::<char>::empty() + ns[j - 1] + end) =~= run_of_names(ns, 0, d)
                + ". "@ + (run_of_names(ns, d, j - 1) + ns[j - 1] + end));
        }
    }
}

/// The line on an item shows the symbols of its rule with spaces between them, and a dot
/// where its mark is: ahead of the symbol that it awaits, or behind all.
pub proof fn law_item_written(g: GrammarView, it: LR0Item)
    requires
        0 < g.rules[it.rule as int].rhs.len(),
        it.dot <= g.rules[it.rule as int].rhs.len(),
    ensures
        ({
            let ns = names(g, g.rules[it.rule as int].rhs);
            let d = it.dot as int;
            let head = rule_head(g, it.rule as int);
            &&& d == ns.len() ==> item_text(g, it) == head + join(ns, " "@) + " .\n"@
            &&& d == 0 ==> item_text(g, it) == head + (". "@ + join(ns, " "@)) + "\n"@
            &&& 0 < d < ns.len() ==> item_text(g, it) == head + (join(ns.take(d), " "@) + " "@
                + ". "@ + join(ns.skip(d), " "@)) + "\n"@
        }),
{
    let ns = names(g, g.rules[it.rule as int].rhs);
    let d = it.dot as int;
    let n = ns.len() as int;
    lemma_marked(g, it, n);
    assert(marked_symbols(g, it).take(n) =~= marked_symbols(g, it));
    assert(ns.subrange(0, n) =~= ns);
    assert(ns.subrange(0, d) =~= ns.take(d));
    assert(ns.subrange(d, n) =~= ns.skip(d));
    if d == n {
        assert(run_of_names(ns, 0, n) =~= join(ns, " "@));
    } else {
        assert(run_of_names(ns, d, n) =~= join(ns.skip(d), " "@));
        if d == 0 {
            assert(ns.skip(0) =~= ns);
            assert(Seq::<char>::empty() + ". "@ =~= ". "@);
        }
    }
}

} // verus!
