//! What the command line says, and what a run comes to.

use crate::cli::{
    arguments, behind, header_name, last_before, last_name, rr_warning, sr_warning, stem, step,
    without_extension, OptionsView, Parsed, Step,
};
use crate::codegen::{header_text, source_text};
use crate::driver::{optional, outcome_of, product, RunView};
use crate::grammar::{empty_grammar, GrammarView};
use crate::report::report_text;
use crate::syntax::{grammar_file, Outcome, Progress};
use crate::tables::{has_room, tables};
use crate::text::dec_int;
use vstd::prelude::*;

verus! {

// ---------------------------------------------------------------------------
// The command line
// ---------------------------------------------------------------------------

/// What the arguments behind others say does not depend on those.
pub proof fn law_arguments_behind(
    a: Seq<Seq<char>>,
    b: Seq<Seq<char>>,
    i: int,
    o: OptionsView,
)
    requires
        0 <= i <= b.len(),
    ensures
        arguments(a + b, a.len() + i, o) == arguments(b, i, o),
    decreases b.len() - i,
{
    if i < b.len() {
        let c = a + b;
        let n = a.len() + i;
        assert(c[n] == b[i]);
        if i + 1 < b.len() {
            assert(c[n + 1] == b[i + 1]);
        }
        assert(step(c, n, o) == step(b, i, o));
        match step(b, i, o) {
            Step::One(next) => {
                law_arguments_behind(a, b, i + 1, next);
            },
            Step::Two(next) => {
                law_arguments_behind(
                    a,
                    b,
                    if i + 1 < b.len() {
                        i + 2
                    } else {
                        i + 1
                    },
                    next,
                );
            },
            Step::Stop(_) => {},
        }
    }
}

proof fn lemma_head(arg: Seq<char>, rest: Seq<Seq<char>>, o: OptionsView, next: OptionsView)
    requires
        step(seq![arg] + rest, 0, o) == Step::One(next),
    ensures
        arguments(seq![arg] + rest, 0, o) == arguments(rest, 0, next),
{
    law_arguments_behind(seq![arg], rest, 0, next);
}

proof fn lemma_two_heads(
    arg: Seq<char>,
    value: Seq<char>,
    rest: Seq<Seq<char>>,
    o: OptionsView,
    next: OptionsView,
)
    requires
        step(seq![arg, value] + rest, 0, o) == Step::Two(next),
    ensures
        arguments(seq![arg, value] + rest, 0, o) == arguments(rest, 0, next),
{
    law_arguments_behind(seq![arg, value], rest, 0, next);
}

/// The words of the options, letter by letter.
proof fn lemma_option_words()
    ensures
        "--version"@.len() == 9 && "--version"@[0] == '-' && "--version"@[1] == '-'
            && "--version"@[2] == 'v' && "--version"@[4] == 'r',
        "-V"@.len() == 2 && "-V"@[1] == 'V' && "-V"@[0] == '-',
        "--help"@.len() == 6 && "--help"@[1] == '-' && "--help"@[2] == 'h' && "--help"@[0] == '-',
        "-h"@.len() == 2 && "-h"@[1] == 'h' && "-h"@[0] == '-',
        "-d"@.len() == 2 && "-d"@[1] == 'd' && "-d"@[0] == '-',
        "--defines"@.len() == 9 && "--defines"@[1] == '-' && "--defines"@[2] == 'd'
            && "--defines"@[0] == '-',
        "-v"@.len() == 2 && "-v"@[1] == 'v' && "-v"@[0] == '-',
        "--verbose"@.len() == 9 && "--verbose"@[1] == '-' && "--verbose"@[2] == 'v'
            && "--verbose"@[4] == 'r' && "--verbose"@[5] == 'b' && "--version"@[5] == 's'
            && "--verbose"@[0] == '-',
        "-o"@.len() == 2 && "-o"@[1] == 'o' && "-o"@[0] == '-',
        "--output"@.len() == 8 && "--output"@[1] == '-' && "--output"@[2] == 'o' && "--output"@[0]
            == '-',
        "-p"@.len() == 2 && "-p"@[1] == 'p' && "-p"@[0] == '-',
        "--name-prefix"@.len() == 13 && "--name-prefix"@[1] == '-' && "--name-prefix"@[2] == 'n'
            && "--name-prefix"@[0] == '-',
        "-b"@.len() == 2 && "-b"@[1] == 'b' && "-b"@[0] == '-',
        "--file-prefix"@.len() == 13 && "--file-prefix"@[1] == '-' && "--file-prefix"@[2] == 'f'
            && "--file-prefix"@[0] == '-',
        "-y"@.len() == 2 && "-y"@[1] == 'y' && "-y"@[0] == '-',
        "--yacc"@.len() == 6 && "--yacc"@[1] == '-' && "--yacc"@[2] == 'y' && "--yacc"@[0] == '-',
        "--output="@.len() == 9 && "--output="@[1] == '-' && "--output="@[2] == 'o'
            && "--output="@[0] == '-',
        "--name-prefix="@.len() == 14 && "--name-prefix="@[1] == '-' && "--name-prefix="@[2] == 'n'
            && "--name-prefix="@[0] == '-',
        "--defines="@.len() == 10 && "--defines="@[1] == '-' && "--defines="@[2] == 'd'
            && "--defines="@[0] == '-',
        "-"@.len() == 1 && "-"@[0] == '-',
{
    reveal_strlit("--version");
    reveal_strlit("-V");
    reveal_strlit("--help");
    reveal_strlit("-h");
    reveal_strlit("-d");
    reveal_strlit("--defines");
    reveal_strlit("-v");
    reveal_strlit("--verbose");
    reveal_strlit("-o");
    reveal_strlit("--output");
    reveal_strlit("-p");
    reveal_strlit("--name-prefix");
    reveal_strlit("-b");
    reveal_strlit("--file-prefix");
    reveal_strlit("-y");
    reveal_strlit("--yacc");
    reveal_strlit("--output=");
    reveal_strlit("--name-prefix=");
    reveal_strlit("--defines=");
    reveal_strlit("-");
}

/// Whether the argument begins as options do.
pub open spec fn is_option(arg: Seq<char>) -> bool {
    arg.len() > 0 && arg[0] == '-'
}

/// An argument that is no option is the input file, in place of one that was named before.
pub proof fn law_input_file(arg: Seq<char>, rest: Seq<Seq<char>>, o: OptionsView)
    requires
        !is_option(arg),
    ensures
        arguments(seq![arg] + rest, 0, o) == arguments(
            rest,
            0,
            OptionsView { input_file: arg, ..o },
        ),
{
    lemma_option_words();
    assert((seq![arg] + rest)[0] == arg);
    assert forall|lit: Seq<char>| lit.len() > 0 && lit[0] == '-' implies #[trigger] behind(arg, lit)
        is None && arg != lit by {
        if lit.is_prefix_of(arg) {
            assert(arg[0] == lit[0]);
        }
    }
    assert(behind(arg, "-o"@) is None && behind(arg, "-p"@) is None && behind(arg, "--output="@)
        is None && behind(arg, "--name-prefix="@) is None && behind(arg, "--defines="@) is None
        && behind(arg, "-"@) is None);
    assert(behind(arg, "--version"@) is None && behind(arg, "-V"@) is None && behind(
        arg,
        "--help"@,
    ) is None && behind(arg, "-h"@) is None && behind(arg, "-d"@) is None && behind(
        arg,
        "--defines"@,
    ) is None && behind(arg, "-v"@) is None && behind(arg, "--verbose"@) is None && behind(
        arg,
        "--output"@,
    ) is None && behind(arg, "--name-prefix"@) is None && behind(arg, "-b"@) is None && behind(
        arg,
        "--file-prefix"@,
    ) is None && behind(arg, "-y"@) is None && behind(arg, "--yacc"@) is None);
    lemma_head(arg, rest, o, OptionsView { input_file: arg, ..o });
}

/// The options without a value: `-v` asks for the report and `-d` for the header, under their
/// long names too; `-y` asks for nothing.
pub proof fn law_flags(rest: Seq<Seq<char>>, o: OptionsView)
    ensures
        arguments(seq!["-v"@] + rest, 0, o) == arguments(
            rest,
            0,
            OptionsView { verbose: true, ..o },
        ),
        arguments(seq!["--verbose"@] + rest, 0, o) == arguments(
            rest,
            0,
            OptionsView { verbose: true, ..o },
        ),
        arguments(seq!["-d"@] + rest, 0, o) == arguments(
            rest,
            0,
            OptionsView { defines: true, ..o },
        ),
        arguments(seq!["--defines"@] + rest, 0, o) == arguments(
            rest,
            0,
            OptionsView { defines: true, ..o },
        ),
        arguments(seq!["-y"@] + rest, 0, o) == arguments(rest, 0, o),
        arguments(seq!["--yacc"@] + rest, 0, o) == arguments(rest, 0, o),
{
    lemma_option_words();
    lemma_head("-v"@, rest, o, OptionsView { verbose: true, ..o });
    lemma_head("--verbose"@, rest, o, OptionsView { verbose: true, ..o });
    lemma_head("-d"@, rest, o, OptionsView { defines: true, ..o });
    lemma_head("--defines"@, rest, o, OptionsView { defines: true, ..o });
    lemma_head("-y"@, rest, o, o);
    lemma_head("--yacc"@, rest, o, o);
}

/// The options with a value in the next argument: `-o` names the output file and `-p` the
/// prefix, under their long names too; the value of `-b` is passed over.
pub proof fn law_values(value: Seq<char>, rest: Seq<Seq<char>>, o: OptionsView)
    ensures
        arguments(seq!["-o"@, value] + rest, 0, o) == arguments(
            rest,
            0,
            OptionsView { output_file: Some(value), ..o },
        ),
        arguments(seq!["--output"@, value] + rest, 0, o) == arguments(
            rest,
            0,
            OptionsView { output_file: Some(value), ..o },
        ),
        arguments(seq!["-p"@, value] + rest, 0, o) == arguments(
            rest,
            0,
            OptionsView { prefix: value, ..o },
        ),
        arguments(seq!["--name-prefix"@, value] + rest, 0, o) == arguments(
            rest,
            0,
            OptionsView { prefix: value, ..o },
        ),
        arguments(seq!["-b"@, value] + rest, 0, o) == arguments(rest, 0, o),
        arguments(seq!["--file-prefix"@, value] + rest, 0, o) == arguments(rest, 0, o),
{
    lemma_option_words();
    lemma_two_heads("-o"@, value, rest, o, OptionsView { output_file: Some(value), ..o });
    lemma_two_heads("--output"@, value, rest, o, OptionsView { output_file: Some(value), ..o });
    lemma_two_heads("-p"@, value, rest, o, OptionsView { prefix: value, ..o });
    lemma_two_heads("--name-prefix"@, value, rest, o, OptionsView { prefix: value, ..o });
    lemma_two_heads("-b"@, value, rest, o, o);
    lemma_two_heads("--file-prefix"@, value, rest, o, o);
}

/// The value of an option may stand in the same argument: directly behind the short name, or
/// behind the long name and an equals sign.
pub proof fn law_joined_values(value: Seq<char>, rest: Seq<Seq<char>>, o: OptionsView)
    ensures
        value.len() > 0 ==> arguments(seq!["-o"@ + value] + rest, 0, o) == arguments(
            rest,
            0,
            OptionsView { output_file: Some(value), ..o },
        ),
        value.len() > 0 ==> arguments(seq!["-p"@ + value] + rest, 0, o) == arguments(
            rest,
            0,
            OptionsView { prefix: value, ..o },
        ),
        arguments(seq!["--output="@ + value] + rest, 0, o) == arguments(
            rest,
            0,
            OptionsView { output_file: Some(value), ..o },
        ),
        arguments(seq!["--name-prefix="@ + value] + rest, 0, o) == arguments(
            rest,
            0,
            OptionsView { prefix: value, ..o },
        ),
        arguments(seq!["--defines="@ + value] + rest, 0, o) == arguments(
            rest,
            0,
            OptionsView { defines: true, header_file: Some(value), ..o },
        ),
{
    lemma_option_words();
    if value.len() > 0 {
        lemma_joined("-o"@, value);
        lemma_joined("-p"@, value);
        assert(("-p"@ + value)[1] == 'p');
        assert(("-o"@ + value)[1] == 'o');
        assert(behind("-p"@ + value, "-o"@) is None);
        lemma_head("-o"@ + value, rest, o, OptionsView { output_file: Some(value), ..o });
        lemma_head("-p"@ + value, rest, o, OptionsView { prefix: value, ..o });
    }
    lemma_long("--output="@, value);
    lemma_long("--name-prefix="@, value);
    lemma_long("--defines="@, value);
    assert(("--name-prefix="@ + value)[2] == 'n');
    assert(("--defines="@ + value)[2] == 'd');
    assert(("--output="@ + value)[2] == 'o');
    reveal_strlit("--output=");
    reveal_strlit("--output");
    reveal_strlit("--name-prefix=");
    reveal_strlit("--name-prefix");
    reveal_strlit("--defines=");
    reveal_strlit("--defines");
    assert(("--output="@ + value).len() > "--output"@.len());
    assert(("--name-prefix="@ + value) != "--file-prefix"@);
    assert(behind("--name-prefix="@ + value, "--output="@) is None);
    assert(behind("--defines="@ + value, "--output="@) is None);
    assert(behind("--defines="@ + value, "--name-prefix="@) is None);
    lemma_head("--output="@ + value, rest, o, OptionsView { output_file: Some(value), ..o });
    lemma_head("--name-prefix="@ + value, rest, o, OptionsView { prefix: value, ..o });
    lemma_head(
        "--defines="@ + value,
        rest,
        o,
        OptionsView { defines: true, header_file: Some(value), ..o },
    );
}

proof fn lemma_joined(lit: Seq<char>, value: Seq<char>)
    ensures
        behind(lit + value, lit) == Some(value),
{
    assert(lit.is_prefix_of(lit + value));
    assert((lit + value).skip(lit.len() as int) =~= value);
}

proof fn lemma_long(lit: Seq<char>, value: Seq<char>)
    requires
        lit.len() >= 2,
        lit[0] == '-' && lit[1] == '-',
    ensures
        behind(lit + value, lit) == Some(value),
        behind(lit + value, "-o"@) is None,
        behind(lit + value, "-p"@) is None,
{
    lemma_option_words();
    lemma_joined(lit, value);
    assert((lit + value)[1] == '-');
}

/// At the end of the arguments a run is asked for, with the options that were given, if an
/// input file was named.
pub proof fn law_arguments_end(o: OptionsView)
    ensures
        arguments(Seq::empty(), 0, o) == if o.input_file.len() == 0 {
            Parsed::Failed("no input file"@)
        } else {
            Parsed::Run(o)
        },
{
}

// ---------------------------------------------------------------------------
// A run
// ---------------------------------------------------------------------------

/// The files of a parser are the source file, the header where the command line or the
/// grammar asks for it, and the report where it is asked for, in this order.
pub proof fn law_files(o: OptionsView, u: Seq<char>, g: GrammarView)
    ensures
        ({
            let files = product(o, u, g);
            let v = tables(g);
            let header = o.defines || g.defines;
            &&& files.len() == 1 + (if header {
                1int
            } else {
                0
            }) + (if o.verbose {
                1int
            } else {
                0
            })
            &&& files[0].text == source_text(g, v, o.prefix, u)
            &&& o.output_file is Some ==> Some(files[0].name) == o.output_file
            &&& o.output_file is None ==> files[0].name == stem(o.input_file) + ".tab.c"@
            &&& header ==> files[1].text == header_text(g, o.prefix, u)
            &&& header && o.header_file is Some ==> Some(files[1].name) == o.header_file
            &&& o.verbose ==> files.last().text == report_text(g, v) && files.last().name == stem(
                o.input_file,
            ) + ".output"@
        }),
{
}

/// Whether the run comes to the warnings that were found on reading the file and no file
/// less than those of a parser for the grammar; behind the warnings only those on conflicts.
pub open spec fn is_run_on(r: RunView, o: OptionsView, u: Seq<char>, st: Progress) -> bool {
    let v = tables(st.g);
    match r {
        RunView::Done(warnings, files) => {
            &&& st.warnings.is_prefix_of(warnings)
            &&& v.sr_conflicts == 0 && v.rr_conflicts == 0 && st.g.expect_conflicts is None
                ==> warnings == st.warnings
            &&& files == product(o, u, st.g)
        },
        _ => false,
    }
}

/// A run on a file that is read comes to the files of a parser for its grammar, with the
/// warnings that were found on reading it and behind them those on conflicts.
pub proof fn law_run(o: OptionsView, u: Seq<char>, text: Seq<char>, st: Progress)
    requires
        grammar_file(text, Progress { pos: 0, g: empty_grammar(), warnings: Seq::empty() })
            == Outcome::Done(st),
        has_room(st.g),
    ensures
        is_run_on(outcome_of(o, u, text), o, u, st),
{
    let v = tables(st.g);
    let a = optional(sr_warning(o.input_file, st.g.expect_conflicts, v.sr_conflicts));
    let b = optional(rr_warning(o.input_file, v.rr_conflicts));
    lemma_warnings(st.warnings, a, b);
}

proof fn lemma_warnings(w: Seq<Seq<char>>, a: Seq<Seq<char>>, b: Seq<Seq<char>>)
    ensures
        w.is_prefix_of(w + a + b),
        a.len() == 0 && b.len() == 0 ==> w + a + b == w,
{
    if a.len() == 0 && b.len() == 0 {
        assert(w + a + b =~= w);
    }
}

/// There is a warning on conflicts between shifting and reducing just where their number is
/// not the expected one, which is zero where the file says none; and one on conflicts between
/// rules just where there are some.
pub proof fn law_conflict_warnings(file: Seq<char>, expected: Option<i32>, sr: int, rr: int)
    requires
        sr >= 0,
        rr >= 0,
    ensures
        sr_warning(file, expected, sr) is None <==> sr == match expected {
            Some(n) => n as int,
            None => 0,
        },
        rr_warning(file, rr) is None <==> rr == 0,
        sr_warning(file, expected, sr) matches Some(w) ==> ("bison: "@ + file + ": warning: "@
            + dec_int(sr) + " shift/reduce conflict"@).is_prefix_of(w),
        rr_warning(file, rr) matches Some(w) ==> ("bison: "@ + file + ": warning: "@ + dec_int(rr)
            + " reduce/reduce conflict"@).is_prefix_of(w),
{
    reveal_strlit(" shift/reduce conflict");
    reveal_strlit(" shift/reduce conflicts (expected ");
    let head = "bison: "@ + file + ": warning: "@ + dec_int(sr);
    let long = " shift/reduce conflicts (expected "@;
    let short = " shift/reduce conflict"@;
    assert(long =~= short + long.skip(short.len() as int));
    assert(head + long =~= head + short + long.skip(short.len() as int));
}

/// The arguments that ask for the version and for help, whatever stands behind them; an
/// option that is not known is refused, and so is one without its value.
pub proof fn law_other_arguments(rest: Seq<Seq<char>>, o: OptionsView, arg: Seq<char>)
    requires
        arg.len() >= 2,
        arg[0] == '-',
        arg[1] != '-' && arg[1] != 'V' && arg[1] != 'h' && arg[1] != 'd' && arg[1] != 'v' && arg[1]
            != 'o' && arg[1] != 'p' && arg[1] != 'b' && arg[1] != 'y',
    ensures
        arguments(seq!["-V"@] + rest, 0, o) == Parsed::Version,
        arguments(seq!["--version"@] + rest, 0, o) == Parsed::Version,
        arguments(seq!["-h"@] + rest, 0, o) == Parsed::Help,
        arguments(seq!["--help"@] + rest, 0, o) == Parsed::Help,
        arguments(seq!["-o"@], 0, o) == Parsed::Failed("-o requires an argument"@),
        arguments(seq!["-p"@], 0, o) == Parsed::Failed("-p requires an argument"@),
        arguments(seq![arg] + rest, 0, o) == Parsed::Failed("unrecognized option: "@ + arg),
{
    lemma_option_words();
    assert((seq![arg] + rest)[0] == arg);
    assert(behind(arg, "-o"@) is None);
    assert(behind(arg, "-p"@) is None);
    assert(behind(arg, "--output="@) is None);
    assert(behind(arg, "--name-prefix="@) is None);
    assert(behind(arg, "--defines="@) is None);
    assert(behind(arg, "-"@) is Some);
}

// ---------------------------------------------------------------------------
// Names of files
// ---------------------------------------------------------------------------

proof fn lemma_last_at(s: Seq<char>, e: int, c: char, i: int)
    requires
        0 <= e <= s.len(),
        -1 <= i < e || (e == 0 && i == -1),
        i >= 0 ==> s[i] == c,
        forall|k: int| i < k < e ==> #[trigger] s[k] != c,
    ensures
        last_before(s, e, c) == i,
    decreases e,
{
    if e > 0 && i < e - 1 {
        lemma_last_at(s, e - 1, c, i);
    }
}

proof fn lemma_last_name_of(dir: Seq<char>, file: Seq<char>)
    requires
        dir.len() == 0 || dir.last() == '/',
        file.len() > 0,
        !file.contains('/'),
        file != seq!['.'],
    ensures
        last_name(dir + file, (dir + file).len() as int) == Some(file),
{
    let path = dir + file;
    let n = path.len() as int;
    assert forall|k: int| dir.len() - 1 < k < n implies #[trigger] path[k] != '/' by {
        let j = k - dir.len();
        assert(path[k] == file[j]);
        assert(file.contains(file[j]));
    }
    lemma_last_at(path, n, '/', dir.len() - 1);
    assert(path.subrange(dir.len() as int, n) =~= file);
}

proof fn lemma_without_extension(name: Seq<char>, ext: Seq<char>)
    requires
        name.len() > 0,
        !ext.contains('.'),
    ensures
        without_extension(name + seq!['.'] + ext) == name,
        !name.contains('.') ==> without_extension(name) == name,
{
    let file = name + seq!['.'] + ext;
    assert forall|k: int| name.len() < k < file.len() implies #[trigger] file[k] != '.' by {
        assert(ext.contains(ext[k - name.len() - 1]));
    }
    assert(file[name.len() as int] == '.');
    lemma_last_at(file, file.len() as int, '.', name.len() as int);
    assert(file.take(name.len() as int) =~= name);
    if !name.contains('.') {
        assert forall|k: int| -1 < k < name.len() implies #[trigger] name[k] != '.' by {
            assert(name.contains(name[k]));
        }
        lemma_last_at(name, name.len() as int, '.', -1);
    }
}

/// The name that output files take from a path is the last name in it without the last
/// extension, whatever directories stand before it and whatever dots in it.
pub proof fn law_stem_of(dir: Seq<char>, name: Seq<char>, ext: Seq<char>)
    requires
        dir.len() == 0 || dir.last() == '/',
        name.len() > 0,
        !name.contains('/'),
        name != seq!['.'],
        !ext.contains('/'),
        !ext.contains('.'),
    ensures
        stem(dir + (name + seq!['.'] + ext)) == name,
{
    let file = name + seq!['.'] + ext;
    assert(!file.contains('/')) by {
        if file.contains('/') {
            let j = choose|j: int| 0 <= j < file.len() && file[j] == '/';
            if j < name.len() {
                assert(name[j] == '/');
            } else if j > name.len() {
                assert(ext[j - name.len() - 1] == '/');
            }
        }
    }
    assert(file.len() >= 2);
    lemma_last_name_of(dir, file);
    lemma_without_extension(name, ext);
    if file == seq!['.', '.'] {
        assert(file[0] == name[0]);
        assert(name =~= seq!['.']);
    }
}

/// A last name without a dot is taken whole.
pub proof fn law_stem_whole(dir: Seq<char>, name: Seq<char>)
    requires
        dir.len() == 0 || dir.last() == '/',
        name.len() > 0,
        !name.contains('/'),
        !name.contains('.'),
    ensures
        stem(dir + name) == name,
{
    assert(name.contains(name[0]));
    assert(name != seq!['.'] && name != seq!['.', '.']);
    lemma_last_name_of(dir, name);
    lemma_without_extension(name, Seq::empty());
}

/// The header file has the name of the source file with `.h` in place of `.c` at the end, and
/// behind it where it does not end so.
pub proof fn law_header_name(name: Seq<char>)
    ensures
        header_name(name + seq!['.', 'c']) == name + seq!['.', 'h'],
        name.len() < 2 || name[name.len() - 2] != '.' || name.last() != 'c' ==> header_name(name)
            == name + seq!['.', 'h'],
{
    reveal_strlit("h");
    reveal_strlit(".h");
    let output = name + seq!['.', 'c'];
    assert(output[output.len() - 2] == '.' && output[output.len() - 1] == 'c');
    assert(output.drop_last() + "h"@ =~= name + seq!['.', 'h']);
    assert(".h"@ =~= seq!['.', 'h']);
}

/// A file that is refused is answered with the warnings up to there, and with the name of the
/// file and the reason.
pub proof fn law_refused(o: OptionsView, u: Seq<char>, text: Seq<char>, st: Progress, why: Seq<char>)
    requires
        grammar_file(text, Progress { pos: 0, g: empty_grammar(), warnings: Seq::empty() })
            == Outcome::Failed(st, why),
    ensures
        outcome_of(o, u, text) == RunView::Refused(
            st.warnings,
            "bison: "@ + o.input_file + ": "@ + why,
        ),
{
}

/// There is room for the tables of a grammar just where the numbers of its rules, its states
/// and its conflicts have room in 32 bits with a sign.
pub proof fn law_room(g: GrammarView)
    ensures
        has_room(g) <==> g.rules.len() <= 2147483647 && tables(g).states.len() <= 2147483647
            && tables(g).sr_conflicts <= 2147483647 && tables(g).rr_conflicts <= 2147483647,
{
}

} // verus!
