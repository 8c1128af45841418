//! Grammars: symbols, tokens with their precedence, and rules.

use crate::text::{cat, chars_of, dec, lemma_cat_step, opt_text, push_usize};
use std::collections::{HashMap, HashSet};
use vstd::prelude::*;

verus! {

broadcast use vstd::std_specs::hash::group_hash_axioms;

/// The symbol that stands for the end of the input.
pub const EOF_TOKEN: usize = 0;

/// The number that the generated scanner interface gives to the token `error`.
pub const ERROR_TOKEN: i32 = 256;

/// How a token groups with itself.
#[derive(Debug, Clone, Copy, PartialEq, Eq, Structural)]
pub enum Assoc {
    Left,
    Right,
    NonAssoc,
    Unset,
}

/// What is known of a terminal symbol.
#[derive(Debug, Clone)]
pub struct TokenInfo {
    pub name: String,
    pub value: Option<i32>,
    pub tag: Option<String>,
    pub prec: i32,
    pub assoc: Assoc,
    pub is_literal: bool,
}

/// One alternative of a nonterminal.
#[derive(Debug, Clone)]
pub struct Rule {
    pub lhs: usize,
    pub rhs: Vec<usize>,
    pub action: String,
    pub action_line: usize,
    pub prec_sym: Option<usize>,
    pub rule_number: usize,
}

/// A grammar as it is read. A symbol is the index of its name in `symbols`.
#[derive(Debug)]
pub struct Grammar {
    pub symbols: Vec<String>,
    pub token_info: HashMap<usize, TokenInfo>,
    pub nonterminals: HashSet<usize>,
    pub terminals: HashSet<usize>,
    pub rules: Vec<Rule>,
    pub start_symbol: Option<usize>,
    pub augmented_start: usize,
    pub union_code: String,
    pub prologue: String,
    pub epilogue: String,
    pub type_tags: HashMap<usize, String>,
    pub expect_conflicts: Option<i32>,
    pub defines: bool,
    pub next_prec: i32,
    pub next_token_value: i32,
}

// ---------------------------------------------------------------------------
// The model
// ---------------------------------------------------------------------------

/// The model of a [`TokenInfo`].
#[verifier::ext_equal]
pub struct TokenView {
    pub name: Seq<char>,
    pub value: Option<i32>,
    pub tag: Option<Seq<char>>,
    pub prec: i32,
    pub assoc: Assoc,
    pub is_literal: bool,
}

/// The model of a [`Rule`].
#[verifier::ext_equal]
pub struct RuleView {
    pub lhs: usize,
    pub rhs: Seq<usize>,
    pub action: Seq<char>,
    pub action_line: usize,
    pub prec_sym: Option<usize>,
    pub rule_number: usize,
}

/// The model of a [`Grammar`].
#[verifier::ext_equal]
pub struct GrammarView {
    pub symbols: Seq<Seq<char>>,
    pub tokens: Map<usize, TokenView>,
    pub nonterminals: Set<usize>,
    pub terminals: Set<usize>,
    pub rules: Seq<RuleView>,
    pub start: Option<usize>,
    pub augmented_start: usize,
    pub union_code: Seq<char>,
    pub prologue: Seq<char>,
    pub epilogue: Seq<char>,
    pub type_tags: Map<usize, Seq<char>>,
    pub expect_conflicts: Option<i32>,
    pub defines: bool,
    pub next_prec: i32,
    pub next_token_value: i32,
}

impl View for TokenInfo {
    type V = TokenView;

    open spec fn view(&self) -> TokenView {
        TokenView {
            name: self.name@,
            value: self.value,
            tag: opt_text(self.tag),
            prec: self.prec,
            assoc: self.assoc,
            is_literal: self.is_literal,
        }
    }
}

impl View for Rule {
    type V = RuleView;

    open spec fn view(&self) -> RuleView {
        RuleView {
            lhs: self.lhs,
            rhs: self.rhs@,
            action: self.action@,
            action_line: self.action_line,
            prec_sym: self.prec_sym,
            rule_number: self.rule_number,
        }
    }
}

/// The texts of a sequence of strings.
pub open spec fn texts(s: Seq<String>) -> Seq<Seq<char>> {
    s.map_values(|t: String| t@)
}

/// The models of a sequence of rules.
pub open spec fn rule_views(s: Seq<Rule>) -> Seq<RuleView> {
    s.map_values(|r: Rule| r@)
}

impl View for Grammar {
    type V = GrammarView;

    open spec fn view(&self) -> GrammarView {
        GrammarView {
            symbols: texts(self.symbols@),
            tokens: self.token_info@.map_values(|t: TokenInfo| t@),
            nonterminals: self.nonterminals@,
            terminals: self.terminals@,
            rules: rule_views(self.rules@),
            start: self.start_symbol,
            augmented_start: self.augmented_start,
            union_code: self.union_code@,
            prologue: self.prologue@,
            epilogue: self.epilogue@,
            type_tags: self.type_tags@.map_values(|t: String| t@),
            expect_conflicts: self.expect_conflicts,
            defines: self.defines,
            next_prec: self.next_prec,
            next_token_value: self.next_token_value,
        }
    }
}

/// Whether `sym` is a symbol of the grammar.
pub open spec fn is_symbol(g: GrammarView, sym: usize) -> bool {
    sym < g.symbols.len()
}

/// Whether the rule speaks of symbols of the grammar only, and derives a nonterminal.
pub open spec fn wf_rule(g: GrammarView, r: RuleView) -> bool {
    &&& is_symbol(g, r.lhs)
    &&& g.nonterminals.contains(r.lhs)
    &&& r.rhs.len() <= usize::MAX
    &&& forall|i: int| 0 <= i < r.rhs.len() ==> is_symbol(g, #[trigger] r.rhs[i])
    &&& r.prec_sym matches Some(p) ==> is_symbol(g, p)
}

/// Whether `t` is what may be known of the terminal `sym`: it carries the symbol's
/// name, its precedence is one that has been given out, and where it is not a
/// literal its number is one that has been given out.
pub open spec fn wf_token(g: GrammarView, sym: usize, t: TokenView) -> bool {
    &&& t.name == g.symbols[sym as int]
    &&& 0 <= t.prec < g.next_prec
    &&& !t.is_literal ==> (t.value matches Some(v) && v < g.next_token_value)
}

/// Whether the name is one that no file can give.
pub open spec fn is_reserved(name: Seq<char>) -> bool {
    name == "$end"@ || name == "$accept"@
}

/// A name that does not begin with a dollar sign is not reserved.
pub proof fn lemma_not_reserved(name: Seq<char>)
    requires
        name.len() == 0 || name[0] != '$',
    ensures
        !is_reserved(name),
{
    reveal_strlit("$end");
    reveal_strlit("$accept");
    assert("$end"@[0] == '$' && "$end"@.len() == 4);
    assert("$accept"@[0] == '$' && "$accept"@.len() == 7);
}

/// Whether the symbols that no file can name are used for their purpose only: the end of
/// the input stands in no rule but that for the whole input, and there is no symbol for
/// the whole input as long as that rule is not there.
pub open spec fn wf_reserved(g: GrammarView) -> bool {
    &&& !g.nonterminals.contains(EOF_TOKEN)
    &&& g.start != Some(EOF_TOKEN)
    &&& if g.augmented_start == EOF_TOKEN {
        !g.symbols.contains("$accept"@)
    } else {
        g.symbols[g.augmented_start as int] == "$accept"@
    }
    &&& forall|i: int, k: int|
        #![trigger g.rules[i].rhs[k]]
        0 <= i < g.rules.len() && 0 <= k < g.rules[i].rhs.len() && g.rules[i].lhs
            != g.augmented_start ==> g.rules[i].rhs[k] != EOF_TOKEN
}

/// The invariant of a grammar.
///
/// No two symbols have one name. The terminals are the symbols with token
/// information. All that the grammar holds speaks of its symbols. Each rule carries
/// its own number.
pub open spec fn wf(g: GrammarView) -> bool {
    &&& g.symbols.len() >= 2
    &&& g.symbols[0] == "$end"@
    &&& g.symbols[1] == "error"@
    &&& g.symbols.no_duplicates()
    &&& g.symbols.len() <= usize::MAX
    &&& g.terminals.contains(EOF_TOKEN)
    &&& forall|t: usize| #[trigger] g.terminals.contains(t) <==> g.tokens.dom().contains(t)
    &&& forall|t: usize| #[trigger] g.terminals.contains(t) ==> is_symbol(g, t)
    &&& forall|t: usize| #[trigger] g.tokens.dom().contains(t) ==> wf_token(g, t, g.tokens[t])
    &&& forall|n: usize| #[trigger] g.nonterminals.contains(n) ==> is_symbol(g, n)
    &&& forall|n: usize| #[trigger] g.type_tags.dom().contains(n) ==> is_symbol(g, n)
    &&& forall|i: int| 0 <= i < g.rules.len() ==> wf_rule(g, #[trigger] g.rules[i])
    &&& forall|i: int| 0 <= i < g.rules.len() ==> (#[trigger] g.rules[i]).rule_number == i
    &&& g.rules.len() <= usize::MAX
    &&& g.start matches Some(s) ==> is_symbol(g, s)
    &&& is_symbol(g, g.augmented_start)
    &&& g.next_prec >= 1
    &&& g.next_token_value >= 258
    &&& wf_reserved(g)
}

/// Whether the grammar has been completed: rule number zero derives the start symbol
/// and the end of the input from a symbol of its own, which no other rule has, and each
/// symbol in another rule is a terminal or a nonterminal.
pub open spec fn complete(g: GrammarView) -> bool {
    &&& wf(g)
    &&& g.rules.len() >= 1
    &&& g.start is Some
    &&& g.augmented_start != EOF_TOKEN
    &&& !g.terminals.contains(g.augmented_start)
    &&& forall|i: int| 1 <= i < g.rules.len() ==> (#[trigger] g.rules[i]).lhs != g.augmented_start
    &&& forall|i: int, k: int|
        #![trigger g.rules[i].rhs[k]]
        0 <= i < g.rules.len() && 0 <= k < g.rules[i].rhs.len() ==> g.rules[i].rhs[k]
            != g.augmented_start
    &&& g.rules[0].lhs == g.augmented_start
    &&& g.rules[0].rhs == seq![g.start->0, EOF_TOKEN]
    &&& forall|i: int, k: int|
        1 <= i < g.rules.len() && 0 <= k < g.rules[i].rhs.len() ==> {
            ||| g.terminals.contains(#[trigger] g.rules[i].rhs[k])
            ||| g.nonterminals.contains(g.rules[i].rhs[k])
        }
}

/// The grammar of a file in which nothing has been read yet.
pub open spec fn empty_grammar() -> GrammarView {
    GrammarView {
        symbols: seq!["$end"@, "error"@],
        tokens: map![
            EOF_TOKEN => TokenView {
                name: "$end"@,
                value: Some(0),
                tag: None,
                prec: 0,
                assoc: Assoc::Unset,
                is_literal: false,
            },
            1usize => TokenView {
                name: "error"@,
                value: Some(ERROR_TOKEN),
                tag: None,
                prec: 0,
                assoc: Assoc::Unset,
                is_literal: false,
            },
        ],
        nonterminals: Set::empty(),
        terminals: set![EOF_TOKEN, 1usize],
        rules: Seq::empty(),
        start: None,
        augmented_start: 0,
        union_code: Seq::empty(),
        prologue: Seq::empty(),
        epilogue: Seq::empty(),
        type_tags: Map::empty(),
        expect_conflicts: None,
        defines: false,
        next_prec: 1,
        next_token_value: 258,
    }
}

/// The symbol with the given name, added to the grammar where it is not there yet.
pub open spec fn intern(g: GrammarView, name: Seq<char>) -> (GrammarView, usize) {
    if g.symbols.contains(name) {
        (g, g.symbols.index_of(name) as usize)
    } else {
        (
            GrammarView { symbols: g.symbols.push(name), ..g },
            g.symbols.len() as usize,
        )
    }
}

/// The grammar with `sym` a terminal of which `t` is known. A tag of the token is the
/// symbol's tag too.
pub open spec fn with_token(g: GrammarView, sym: usize, t: TokenView) -> GrammarView {
    GrammarView {
        tokens: g.tokens.insert(sym, t),
        terminals: g.terminals.insert(sym),
        type_tags: match t.tag {
            Some(tag) => g.type_tags.insert(sym, tag),
            None => g.type_tags,
        },
        ..g
    }
}

/// The grammar with `sym` a nonterminal.
pub open spec fn with_nonterminal(g: GrammarView, sym: usize) -> GrammarView {
    GrammarView { nonterminals: g.nonterminals.insert(sym), ..g }
}

/// The grammar in which `sym` has the type tag `tag`.
pub open spec fn with_tag(g: GrammarView, sym: usize, tag: Seq<char>) -> GrammarView {
    GrammarView { type_tags: g.type_tags.insert(sym, tag), ..g }
}

/// The grammar with one more rule.
pub open spec fn with_rule(g: GrammarView, r: RuleView) -> GrammarView {
    GrammarView { rules: g.rules.push(r), ..g }
}

/// The character that the text between the quotes of a character literal denotes.
pub open spec fn char_literal(s: Seq<char>) -> Option<char> {
    if s.len() == 0 {
        None
    } else if s[0] != '\\' {
        Some(s[0])
    } else if s.len() == 1 {
        None
    } else {
        Some(escaped(s[1]))
    }
}

/// The character that `c` denotes after a backslash.
pub open spec fn escaped(c: char) -> char {
    match c {
        'n' => '\n',
        't' => '\t',
        'r' => '\r',
        '0' => '\0',
        'a' => '\x07',
        'b' => '\x08',
        'f' => '\x0C',
        'v' => '\x0B',
        _ => c,
    }
}

/// The number by which the scanner names the symbol: that of its token information,
/// else the code of the character that its name quotes, else the symbol itself.
pub open spec fn c_value(g: GrammarView, sym: usize) -> i32 {
    let name = g.symbols[sym as int];
    if g.tokens.dom().contains(sym) && g.tokens[sym].value is Some {
        g.tokens[sym].value->0
    } else if name.len() >= 3 && name[0] == '\'' && name.last() == '\'' && char_literal(
        name.subrange(1, name.len() - 1),
    ) is Some {
        (char_literal(name.subrange(1, name.len() - 1))->0) as u32 as i32
    } else {
        sym as i32
    }
}

/// The precedence and associativity of the last terminal in `rhs`; none where there is no
/// terminal or the last one has no precedence.
pub open spec fn last_prec(g: GrammarView, rhs: Seq<usize>) -> (i32, Assoc)
    decreases rhs.len(),
{
    if rhs.len() == 0 {
        (0, Assoc::Unset)
    } else {
        let s = rhs.last();
        if g.terminals.contains(s) && g.tokens.dom().contains(s) {
            if g.tokens[s].prec > 0 {
                (g.tokens[s].prec, g.tokens[s].assoc)
            } else {
                (0, Assoc::Unset)
            }
        } else {
            last_prec(g, rhs.drop_last())
        }
    }
}

/// The precedence and associativity of a rule: those of the token that it names, else
/// those of its last terminal.
pub open spec fn prec_of(g: GrammarView, r: RuleView) -> (i32, Assoc) {
    if r.prec_sym is Some && g.tokens.dom().contains(r.prec_sym->0) {
        (g.tokens[r.prec_sym->0].prec, g.tokens[r.prec_sym->0].assoc)
    } else {
        last_prec(g, r.rhs)
    }
}

/// The names of the symbols, each after a space.
pub open spec fn spaced_names(g: GrammarView, syms: Seq<usize>) -> Seq<char> {
    cat(Seq::new(syms.len(), |k: int| " "@ + g.symbols[syms[k] as int]))
}

/// The line that shows rule number `i`.
pub open spec fn rule_line(g: GrammarView, i: int) -> Seq<char> {
    let r = g.rules[i];
    "  R"@ + dec(i as nat) + ": "@ + g.symbols[r.lhs as int] + " ->"@ + (if r.rhs.len() == 0 {
        " (empty)"@
    } else {
        ""@
    }) + spaced_names(g, r.rhs) + "\n"@
}

/// A short account of the grammar: its size, and a line for each rule.
pub open spec fn grammar_text(g: GrammarView) -> Seq<char> {
    "Grammar ("@ + dec(g.symbols.len()) + " symbols, "@ + dec(g.rules.len()) + " rules):\n"@ + cat(
        Seq::new(g.rules.len(), |i: int| rule_line(g, i)),
    )
}

// ---------------------------------------------------------------------------
// Building a grammar
// ---------------------------------------------------------------------------

/// A grammar stays well-formed when a symbol is interned, and the symbol has the name.
/// The name of the symbol for the whole input may be interned only to serve as that
/// symbol.
pub proof fn lemma_intern(g: GrammarView, name: Seq<char>)
    requires
        wf(g),
        intern(g, name).0.symbols.len() <= usize::MAX,
    ensures
        name != "$accept"@ ==> wf(intern(g, name).0),
        name == "$accept"@ ==> wf(
            GrammarView { augmented_start: intern(g, name).1, ..intern(g, name).0 },
        ),
        name != "$end"@ ==> intern(g, name).1 != EOF_TOKEN,
        is_symbol(intern(g, name).0, intern(g, name).1),
        intern(g, name).0.symbols[intern(g, name).1 as int] == name,
        g.symbols.len() <= intern(g, name).0.symbols.len(),
{
    let (h, id) = intern(g, name);
    reveal_strlit("$accept");
    reveal_strlit("$end");
    assert("$accept"@.len() != "$end"@.len());
    if g.symbols.contains(name) {
        assert(g.symbols[id as int] == name);
        let a = GrammarView { augmented_start: id, ..h };
        assert(name == "$accept"@ ==> id == g.augmented_start);
        assert forall|i: int| 0 <= i < a.rules.len() implies wf_rule(a, #[trigger] a.rules[i]) by {
            assert(wf_rule(g, g.rules[i]));
        }
        assert forall|t: usize| #[trigger] a.tokens.dom().contains(t) implies wf_token(
            a,
            t,
            a.tokens[t],
        ) by {
            assert(wf_token(g, t, g.tokens[t]));
        }
    } else {
        assert(h.symbols.no_duplicates());
        assert(h.symbols[id as int] == name);
        if name == "$accept"@ && g.augmented_start != EOF_TOKEN {
            assert(g.symbols.contains(g.symbols[g.augmented_start as int]));
        }
        if name != "$accept"@ && h.symbols.contains("$accept"@) {
            let j = choose|j: int| 0 <= j < h.symbols.len() && h.symbols[j] == "$accept"@;
            assert(g.symbols[j] == "$accept"@);
        }
        assert forall|i: int| 0 <= i < h.rules.len() implies wf_rule(h, #[trigger] h.rules[i]) by {
            assert(wf_rule(g, g.rules[i]));
        }
        assert forall|t: usize| #[trigger] h.tokens.dom().contains(t) implies wf_token(
            h,
            t,
            h.tokens[t],
        ) by {
            assert(g.terminals.contains(t));
            assert(wf_token(g, t, g.tokens[t]));
        }
    }
}

/// A grammar stays well-formed when a token is declared.
pub proof fn lemma_with_token(g: GrammarView, sym: usize, t: TokenView)
    requires
        wf(g),
        is_symbol(g, sym),
        wf_token(g, sym, t),
    ensures
        wf(with_token(g, sym, t)),
{
    let h = with_token(g, sym, t);
    assert forall|u: usize| #[trigger] h.tokens.dom().contains(u) implies wf_token(
        h,
        u,
        h.tokens[u],
    ) by {
        if u != sym {
            assert(g.tokens.dom().contains(u));
        }
    }
    assert forall|i: int| 0 <= i < h.rules.len() implies wf_rule(h, #[trigger] h.rules[i]) by {
        assert(wf_rule(g, g.rules[i]));
    }
}

/// What is not spoken of in the invariant may change, and so may the start symbol.
pub proof fn lemma_wf_frame(g: GrammarView, h: GrammarView)
    requires
        wf(g),
        h.symbols == g.symbols,
        h.tokens == g.tokens,
        h.terminals == g.terminals,
        h.nonterminals == g.nonterminals,
        h.rules == g.rules,
        h.type_tags == g.type_tags,
        h.next_prec == g.next_prec,
        h.next_token_value == g.next_token_value,
        h.start matches Some(s) ==> is_symbol(h, s) && s != EOF_TOKEN,
        h.augmented_start == g.augmented_start,
    ensures
        wf(h),
{
    assert forall|i: int| 0 <= i < h.rules.len() implies wf_rule(h, #[trigger] h.rules[i]) by {
        assert(wf_rule(g, g.rules[i]));
    }
    assert forall|t: usize| #[trigger] h.tokens.dom().contains(t) implies wf_token(
        h,
        t,
        h.tokens[t],
    ) by {
        assert(wf_token(g, t, g.tokens[t]));
    }
}

impl Grammar {
    /// The grammar of a file in which nothing has been read yet.
    pub fn new() -> (g: Self)
        ensures
            g@ == empty_grammar(),
            wf(g@),
    {
        let mut g = Grammar {
            symbols: Vec::new(),
            token_info: HashMap::new(),
            nonterminals: HashSet::new(),
            terminals: HashSet::new(),
            rules: Vec::new(),
            start_symbol: None,
            augmented_start: 0,
            union_code: String::new(),
            prologue: String::new(),
            epilogue: String::new(),
            type_tags: HashMap::new(),
            expect_conflicts: None,
            defines: false,
            next_prec: 1,
            next_token_value: 258,
        };
        g.symbols.push("$end".to_owned());
        g.symbols.push("error".to_owned());
        g.terminals.insert(EOF_TOKEN);
        g.terminals.insert(1);
        g.token_info.insert(
            EOF_TOKEN,
            TokenInfo {
                name: "$end".to_owned(),
                value: Some(0),
                tag: None,
                prec: 0,
                assoc: Assoc::Unset,
                is_literal: false,
            },
        );
        g.token_info.insert(
            1,
            TokenInfo {
                name: "error".to_owned(),
                value: Some(ERROR_TOKEN),
                tag: None,
                prec: 0,
                assoc: Assoc::Unset,
                is_literal: false,
            },
        );
        proof {
            reveal_strlit("$end");
            reveal_strlit("error");
            let e = empty_grammar();
            assert(g@.symbols =~= e.symbols);
            assert(g@.tokens =~= e.tokens);
            assert(g@.terminals =~= e.terminals);
            assert(g@.nonterminals =~= e.nonterminals);
            assert(g@.rules =~= e.rules);
            assert(g@.type_tags =~= e.type_tags);
            assert(g@ =~= e);
            assert("$end"@.len() != "error"@.len());
            reveal_strlit("$accept");
            assert("$accept"@.len() == 7);
        }
        g
    }

    /// The symbol with the given name, added to the grammar where it is not there yet.
    pub fn intern_symbol(&mut self, name: &str) -> (id: usize)
        requires
            wf(old(self)@),
        ensures
            (final(self)@, id) == intern(old(self)@, name@),
            name@ != "$accept"@ ==> wf(final(self)@),
            name@ == "$accept"@ ==> wf(
                (GrammarView { augmented_start: id, ..final(self)@ }),
            ),
            name@ != "$end"@ ==> id != EOF_TOKEN,
            is_symbol(final(self)@, id),
            final(self)@.symbols[id as int] == name@,
    {
        let owned: String = name.to_owned();
        let len: usize = self.symbols.len();
        let mut i: usize = 0;
        while i < len
            invariant
                len == self.symbols@.len(),
                i <= len,
                wf(self@),
                owned@ == name@,
                self@ == old(self)@,
                forall|k: int| 0 <= k < i ==> #[trigger] self@.symbols[k] != name@,
            decreases len - i,
        {
            if self.symbols[i] == owned {
                proof {
                    assert(self@.symbols[i as int] == name@);
                    let j = self@.symbols.index_of(name@);
                    assert(self@.symbols[j] == name@);
                    lemma_intern(self@, name@);
                }
                return i;
            }
            proof {
                assert(self@.symbols[i as int] == self.symbols@[i as int]@);
            }
            i += 1;
        }
        self.symbols.push(owned);
        proof {
            assert(!old(self)@.symbols.contains(name@));
            assert(self@.symbols =~= old(self)@.symbols.push(name@));
            assert(self@ =~= intern(old(self)@, name@).0);
            assert(self.symbols@.len() == self.symbols.len());
            lemma_intern(old(self)@, name@);
        }
        len
    }

    /// Whether the symbol is a terminal.
    pub fn is_terminal(&self, sym: usize) -> (b: bool)
        ensures
            b == self@.terminals.contains(sym),
    {
        self.terminals.contains(&sym)
    }

    /// Whether the symbol is a nonterminal.
    pub fn is_nonterminal(&self, sym: usize) -> (b: bool)
        ensures
            b == self@.nonterminals.contains(sym),
    {
        self.nonterminals.contains(&sym)
    }

    /// The name of the symbol.
    pub fn symbol_name(&self, sym: usize) -> (s: &str)
        requires
            is_symbol(self@, sym),
        ensures
            s@ == self@.symbols[sym as int],
    {
        self.symbols[sym].as_str()
    }

    /// Makes `sym` a terminal of which `info` is known.
    pub fn add_token(&mut self, sym: usize, info: TokenInfo)
        requires
            wf(old(self)@),
            is_symbol(old(self)@, sym),
            wf_token(old(self)@, sym, info@),
        ensures
            final(self)@ == with_token(old(self)@, sym, info@),
            wf(final(self)@),
    {
        let ghost t = info@;
        self.terminals.insert(sym);
        match &info.tag {
            Some(tag) => {
                self.type_tags.insert(sym, tag.clone());
            },
            None => {},
        }
        self.token_info.insert(sym, info);
        proof {
            let h = with_token(old(self)@, sym, t);
            assert(self@.tokens =~= h.tokens);
            assert(self@.type_tags =~= h.type_tags);
            assert(self@ =~= h);
            lemma_with_token(old(self)@, sym, t);
        }
    }

    /// Makes `sym` a nonterminal.
    pub fn add_nonterminal(&mut self, sym: usize)
        requires
            wf(old(self)@),
            is_symbol(old(self)@, sym),
            sym != EOF_TOKEN,
        ensures
            final(self)@ == with_nonterminal(old(self)@, sym),
            wf(final(self)@),
    {
        self.nonterminals.insert(sym);
        proof {
            let h = with_nonterminal(old(self)@, sym);
            assert(self@ =~= h);
            assert forall|i: int| 0 <= i < h.rules.len() implies wf_rule(
                h,
                #[trigger] h.rules[i],
            ) by {
                assert(wf_rule(old(self)@, old(self)@.rules[i]));
            }
        }
    }

    /// Gives `sym` the type tag `tag`.
    pub fn add_tag(&mut self, sym: usize, tag: &String)
        requires
            wf(old(self)@),
            is_symbol(old(self)@, sym),
        ensures
            final(self)@ == with_tag(old(self)@, sym, tag@),
            wf(final(self)@),
    {
        self.type_tags.insert(sym, tag.clone());
        proof {
            let h = with_tag(old(self)@, sym, tag@);
            assert(self@.type_tags =~= h.type_tags);
            assert(self@ =~= h);
            assert forall|i: int| 0 <= i < h.rules.len() implies wf_rule(
                h,
                #[trigger] h.rules[i],
            ) by {
                assert(wf_rule(old(self)@, old(self)@.rules[i]));
            }
            assert forall|t: usize| #[trigger] h.tokens.dom().contains(t) implies wf_token(
                h,
                t,
                h.tokens[t],
            ) by {
                assert(wf_token(old(self)@, t, old(self)@.tokens[t]));
            }
        }
    }

    /// Appends a rule, which gets the next number.
    pub fn add_rule(&mut self, rule: Rule)
        requires
            wf(old(self)@),
            wf_rule(old(self)@, rule@),
            !rule@.rhs.contains(EOF_TOKEN),
            rule.rule_number == old(self).rules@.len(),
        ensures
            final(self)@ == with_rule(old(self)@, rule@),
            wf(final(self)@),
    {
        self.rules.push(rule);
        proof {
            let h = with_rule(old(self)@, rule@);
            assert(self@.rules =~= h.rules);
            assert(self@ =~= h);
            assert(self.rules@.len() == self.rules.len());
            assert forall|i: int| 0 <= i < h.rules.len() implies wf_rule(
                h,
                #[trigger] h.rules[i],
            ) by {
                if i < old(self)@.rules.len() {
                    assert(wf_rule(old(self)@, old(self)@.rules[i]));
                }
            }
            assert forall|t: usize| #[trigger] h.tokens.dom().contains(t) implies wf_token(
                h,
                t,
                h.tokens[t],
            ) by {
                assert(wf_token(old(self)@, t, old(self)@.tokens[t]));
            }
        }
    }

    /// Raises the precedence and the token number that are given out next.
    pub fn raise(&mut self, next_prec: i32, next_token_value: i32)
        requires
            wf(old(self)@),
            old(self).next_prec <= next_prec,
            old(self).next_token_value <= next_token_value,
        ensures
            final(self)@ == (GrammarView { next_prec, next_token_value, ..old(self)@ }),
            wf(final(self)@),
    {
        self.next_prec = next_prec;
        self.next_token_value = next_token_value;
        proof {
            let h = GrammarView { next_prec, next_token_value, ..old(self)@ };
            assert(self@ =~= h);
            assert forall|i: int| 0 <= i < h.rules.len() implies wf_rule(
                h,
                #[trigger] h.rules[i],
            ) by {
                assert(wf_rule(old(self)@, old(self)@.rules[i]));
            }
            assert forall|t: usize| #[trigger] h.tokens.dom().contains(t) implies wf_token(
                h,
                t,
                h.tokens[t],
            ) by {
                assert(wf_token(old(self)@, t, old(self)@.tokens[t]));
            }
        }
    }

    /// The number by which the scanner names the symbol.
    pub fn token_c_value(&self, sym: usize) -> (v: i32)
        requires
            is_symbol(self@, sym),
        ensures
            v == c_value(self@, sym),
    {
        match self.token_info.get(&sym) {
            Some(info) => {
                proof {
                    assert(self@.tokens[sym] == info@);
                }
                match info.value {
                    Some(v) => {
                        return v;
                    },
                    None => {},
                }
            },
            None => {},
        }
        let name: Vec<char> = chars_of(self.symbols[sym].as_str());
        proof {
            assert(name@ == self@.symbols[sym as int]);
        }
        if name.len() >= 3 && name[0] == '\'' && name[name.len() - 1] == '\'' {
            match literal_char(&name, 1, name.len() - 1) {
                Some(c) => {
                    let u: u32 = c as u32;
                    return u as i32;
                },
                None => {},
            }
        }
        sym as i32
    }

    /// The precedence and associativity of a rule.
    pub fn rule_prec(&self, rule: &Rule) -> (p: (i32, Assoc))
        ensures
            p == prec_of(self@, rule@),
    {
        match rule.prec_sym {
            Some(s) => match self.token_info.get(&s) {
                Some(info) => {
                    proof {
                        assert(self@.tokens[s] == info@);
                    }
                    return (info.prec, info.assoc);
                },
                None => {},
            },
            None => {},
        }
        let mut n: usize = rule.rhs.len();
        proof {
            assert(rule@.rhs.take(n as int) =~= rule@.rhs);
        }
        while n > 0
            invariant
                n <= rule.rhs@.len(),
                prec_of(self@, rule@) == last_prec(self@, rule@.rhs.take(n as int)),
            decreases n,
        {
            let s: usize = rule.rhs[n - 1];
            proof {
                let t = rule@.rhs.take(n as int);
                assert(t.last() == s);
                assert(t.drop_last() =~= rule@.rhs.take(n - 1));
            }
            if self.is_terminal(s) {
                match self.token_info.get(&s) {
                    Some(info) => {
                        proof {
                            assert(self@.tokens[s] == info@);
                        }
                        return if info.prec > 0 {
                            (info.prec, info.assoc)
                        } else {
                            (0, Assoc::Unset)
                        };
                    },
                    None => {},
                }
            }
            n -= 1;
        }
        (0, Assoc::Unset)
    }

    /// Appends the names of the symbols, each after a space.
    fn push_names(&self, out: &mut String, syms: &Vec<usize>)
        requires
            forall|k: int| 0 <= k < syms@.len() ==> is_symbol(self@, #[trigger] syms@[k]),
        ensures
            final(out)@ == old(out)@ + spaced_names(self@, syms@),
    {
        let ghost parts = Seq::new(syms@.len(), |k: int| " "@ + self@.symbols[syms@[k] as int]);
        let ghost before = out@;
        let mut k: usize = 0;
        while k < syms.len()
            invariant
                k <= syms@.len(),
                forall|k: int| 0 <= k < syms@.len() ==> is_symbol(self@, #[trigger] syms@[k]),
                parts == Seq::new(syms@.len(), |k: int| " "@ + self@.symbols[syms@[k] as int]),
                out@ == before + cat(parts.take(k as int)),
            decreases syms@.len() - k,
        {
            out.append(" ");
            out.append(self.symbol_name(syms[k]));
            proof {
                lemma_cat_step(parts, k as int);
                assert(out@ =~= before + cat(parts.take(k + 1)));
            }
            k += 1;
        }
        proof {
            assert(parts.take(k as int) =~= parts);
        }
    }

    /// Appends the line that shows rule number `i`.
    fn push_rule_line(&self, out: &mut String, i: usize)
        requires
            wf(self@),
            i < self.rules@.len(),
        ensures
            final(out)@ == old(out)@ + rule_line(self@, i as int),
    {
        let r: &Rule = &self.rules[i];
        proof {
            assert(r@ == self@.rules[i as int]);
            assert(wf_rule(self@, r@));
            assert forall|k: int| 0 <= k < r.rhs@.len() implies is_symbol(
                self@,
                #[trigger] r.rhs@[k],
            ) by {
                assert(r.rhs@[k] == r@.rhs[k]);
            }
        }
        let mut t: String = "  R".to_owned();
        push_usize(&mut t, i);
        t.append(": ");
        t.append(self.symbol_name(r.lhs));
        t.append(" ->");
        if r.rhs.len() == 0 {
            t.append(" (empty)");
        } else {
            t.append("");
        }
        self.push_names(&mut t, &r.rhs);
        t.append("\n");
        out.append(t.as_str());
    }

    /// Appends a short account of the grammar.
    pub fn fmt(&self, out: &mut String)
        requires
            wf(self@),
        ensures
            final(out)@ == old(out)@ + grammar_text(self@),
    {
        let ghost parts = Seq::new(self@.rules.len(), |i: int| rule_line(self@, i));
        let mut lines = String::new();
        let mut i: usize = 0;
        proof {
            assert(lines@ =~= cat(parts.take(0)));
        }
        while i < self.rules.len()
            invariant
                i <= self.rules@.len(),
                wf(self@),
                parts == Seq::new(self@.rules.len(), |i: int| rule_line(self@, i)),
                lines@ == cat(parts.take(i as int)),
            decreases self.rules@.len() - i,
        {
            self.push_rule_line(&mut lines, i);
            proof {
                lemma_cat_step(parts, i as int);
            }
            i += 1;
        }
        proof {
            assert(parts.take(i as int) =~= parts);
        }
        let mut t: String = "Grammar (".to_owned();
        push_usize(&mut t, self.symbols.len());
        t.append(" symbols, ");
        push_usize(&mut t, self.rules.len());
        t.append(" rules):\n");
        t.append(lines.as_str());
        out.append(t.as_str());
    }
}

/// The character that `chars` from `from` up to `to` denotes between quotes.
pub fn literal_char(chars: &Vec<char>, from: usize, to: usize) -> (c: Option<char>)
    requires
        from <= to <= chars@.len(),
    ensures
        c == char_literal(chars@.subrange(from as int, to as int)),
{
    let ghost s = chars@.subrange(from as int, to as int);
    if from == to {
        return None;
    }
    let c: char = chars[from];
    proof {
        assert(s[0] == c);
    }
    if c != '\\' {
        return Some(c);
    }
    if to - from == 1 {
        return None;
    }
    let d: char = chars[from + 1];
    proof {
        assert(s[1] == d);
    }
    let r: char = match d {
        'n' => '\n',
        't' => '\t',
        'r' => '\r',
        '0' => '\0',
        'a' => '\x07',
        'b' => '\x08',
        'f' => '\x0C',
        'v' => '\x0B',
        _ => d,
    };
    Some(r)
}

/// The character that the text between the quotes of a character literal denotes.
pub fn parse_char_literal(s: &str) -> (c: Option<char>)
    ensures
        c == char_literal(s@),
{
    let v: Vec<char> = chars_of(s);
    proof {
        assert(v@.subrange(0, v@.len() as int) =~= s@);
    }
    literal_char(&v, 0, v.len())
}

} // verus!
