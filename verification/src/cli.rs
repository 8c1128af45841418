//! The command line: options, names of files, and warnings about conflicts.

use crate::grammar::texts;
use crate::text::{chars_of, dec_int, opt_text, push_i32, reads, slice_text};
use vstd::prelude::*;

verus! {

/// What a run is asked to do.
#[derive(Debug)]
pub struct Options {
    pub input_file: String,
    pub output_file: Option<String>,
    pub header_file: Option<String>,
    pub verbose: bool,
    pub defines: bool,
    pub prefix: String,
}

/// What the command line asks for.
#[derive(Debug)]
pub enum Command {
    /// A run with the options.
    Run(Options),
    /// The version.
    Version,
    /// The usage.
    Help,
}

// ---------------------------------------------------------------------------
// Arguments
// ---------------------------------------------------------------------------

/// The model of [`Options`].
#[verifier::ext_equal]
pub struct OptionsView {
    pub input_file: Seq<char>,
    pub output_file: Option<Seq<char>>,
    pub header_file: Option<Seq<char>>,
    pub verbose: bool,
    pub defines: bool,
    pub prefix: Seq<char>,
}

impl View for Options {
    type V = OptionsView;

    open spec fn view(&self) -> OptionsView {
        OptionsView {
            input_file: self.input_file@,
            output_file: opt_text(self.output_file),
            header_file: opt_text(self.header_file),
            verbose: self.verbose,
            defines: self.defines,
            prefix: self.prefix@,
        }
    }
}

/// What is made of a command line.
#[verifier::ext_equal]
pub enum Parsed {
    Run(OptionsView),
    Version,
    Help,
    Failed(Seq<char>),
}

/// The options where none is given.
pub open spec fn default_options() -> OptionsView {
    OptionsView {
        input_file: Seq::empty(),
        output_file: None,
        header_file: None,
        verbose: false,
        defines: false,
        prefix: "yy"@,
    }
}

/// What one argument makes of the options, alone or with the next one; or what the
/// command line comes to with it.
pub enum Step {
    One(OptionsView),
    Two(OptionsView),
    Stop(Parsed),
}

/// The text behind `lit` where the argument begins with it.
pub open spec fn behind(arg: Seq<char>, lit: Seq<char>) -> Option<Seq<char>> {
    if lit.is_prefix_of(arg) {
        Some(arg.skip(lit.len() as int))
    } else {
        None
    }
}

/// What the argument at `i` makes of the options.
pub open spec fn step(args: Seq<Seq<char>>, i: int, o: OptionsView) -> Step {
    let arg = args[i];
    if arg == "--version"@ || arg == "-V"@ {
        Step::Stop(Parsed::Version)
    } else if arg == "--help"@ || arg == "-h"@ {
        Step::Stop(Parsed::Help)
    } else if arg == "-d"@ || arg == "--defines"@ {
        Step::One(OptionsView { defines: true, ..o })
    } else if arg == "-v"@ || arg == "--verbose"@ {
        Step::One(OptionsView { verbose: true, ..o })
    } else if arg == "-o"@ || arg == "--output"@ {
        if i + 1 < args.len() {
            Step::Two(OptionsView { output_file: Some(args[i + 1]), ..o })
        } else {
            Step::Stop(Parsed::Failed("-o requires an argument"@))
        }
    } else if arg == "-p"@ || arg == "--name-prefix"@ {
        if i + 1 < args.len() {
            Step::Two(OptionsView { prefix: args[i + 1], ..o })
        } else {
            Step::Stop(Parsed::Failed("-p requires an argument"@))
        }
    } else if arg == "-b"@ || arg == "--file-prefix"@ {
        Step::Two(o)
    } else if arg == "-y"@ || arg == "--yacc"@ {
        Step::One(o)
    } else if behind(arg, "-o"@) is Some {
        Step::One(OptionsView { output_file: behind(arg, "-o"@), ..o })
    } else if behind(arg, "-p"@) is Some {
        Step::One(OptionsView { prefix: behind(arg, "-p"@)->0, ..o })
    } else if behind(arg, "--output="@) is Some {
        Step::One(OptionsView { output_file: behind(arg, "--output="@), ..o })
    } else if behind(arg, "--name-prefix="@) is Some {
        Step::One(OptionsView { prefix: behind(arg, "--name-prefix="@)->0, ..o })
    } else if behind(arg, "--defines="@) is Some {
        Step::One(OptionsView { defines: true, header_file: behind(arg, "--defines="@), ..o })
    } else if behind(arg, "-"@) is None {
        Step::One(OptionsView { input_file: arg, ..o })
    } else {
        Step::Stop(Parsed::Failed("unrecognized option: "@ + arg))
    }
}

/// What the arguments from `i` on come to, where those before have made the options `o`.
pub open spec fn arguments(args: Seq<Seq<char>>, i: int, o: OptionsView) -> Parsed
    decreases args.len() - i,
{
    if i >= args.len() {
        if o.input_file.len() == 0 {
            Parsed::Failed("no input file"@)
        } else {
            Parsed::Run(o)
        }
    } else {
        match step(args, i, o) {
            Step::One(next) => arguments(args, i + 1, next),
            Step::Two(next) => arguments(
                args,
                if i + 1 < args.len() {
                    i + 2
                } else {
                    i + 1
                },
                next,
            ),
            Step::Stop(r) => r,
        }
    }
}

/// Whether the result is what the command line comes to.
pub open spec fn is_parsed(r: Result<Command, String>, p: Parsed) -> bool {
    match r {
        Ok(Command::Run(o)) => p == Parsed::Run(o@),
        Ok(Command::Version) => p == Parsed::Version,
        Ok(Command::Help) => p == Parsed::Help,
        Err(e) => p == Parsed::Failed(e@),
    }
}

/// The text behind `lit` where the argument begins with it.
fn text_behind(arg: &String, lit: &str) -> (r: Option<String>)
    ensures
        opt_text(r) == behind(arg@, lit@),
{
    let a: Vec<char> = chars_of(arg.as_str());
    let b: Vec<char> = chars_of(lit);
    if b.len() > a.len() {
        return None;
    }
    let mut i: usize = 0;
    while i < b.len()
        invariant
            i <= b@.len() <= a@.len(),
            a@ == arg@,
            b@ == lit@,
            forall|j: int| 0 <= j < i ==> a@[j] == b@[j],
        decreases b@.len() - i,
    {
        if a[i] != b[i] {
            return None;
        }
        i += 1;
    }
    let r: String = slice_text(&a, b.len(), a.len());
    proof {
        assert(lit@ =~= arg@.subrange(0, lit@.len() as int));
        assert(r@ =~= arg@.skip(lit@.len() as int));
    }
    Some(r)
}

/// Whether the argument is one of the two.
fn is_either(arg: &String, short: &str, long: &str) -> (b: bool)
    ensures
        b == (arg@ == short@ || arg@ == long@),
{
    reads(arg, short) || reads(arg, long)
}

/// Reads the command line, without the name of the program.
pub fn parse_args(args: &[String]) -> (r: Result<Command, String>)
    ensures
        is_parsed(r, arguments(texts(args@), 0, default_options())),
{
    let ghost all = texts(args@);
    let mut opts = Options {
        input_file: String::new(),
        output_file: None,
        header_file: None,
        verbose: false,
        defines: false,
        prefix: "yy".to_owned(),
    };
    let n: usize = args.len();
    let mut i: usize = 0;
    proof {
        assert(opts@ =~= default_options());
    }
    while i < n
        invariant
            i <= n,
            n == args@.len(),
            all == texts(args@),
            arguments(all, i as int, opts@) == arguments(all, 0, default_options()),
        decreases n - i,
    {
        let arg: &String = &args[i];
        let ghost o = opts@;
        proof {
            assert(all[i as int] == arg@);
            assert(i + 1 < n ==> all[i + 1] == args@[i + 1]@);
        }
        if is_either(arg, "--version", "-V") {
            return Ok(Command::Version);
        } else if is_either(arg, "--help", "-h") {
            return Ok(Command::Help);
        } else if is_either(arg, "-d", "--defines") {
            opts.defines = true;
        } else if is_either(arg, "-v", "--verbose") {
            opts.verbose = true;
        } else if is_either(arg, "-o", "--output") {
            i += 1;
            if i >= n {
                return Err("-o requires an argument".to_owned());
            }
            opts.output_file = Some(args[i].clone());
        } else if is_either(arg, "-p", "--name-prefix") {
            i += 1;
            if i >= n {
                return Err("-p requires an argument".to_owned());
            }
            opts.prefix = args[i].clone();
        } else if is_either(arg, "-b", "--file-prefix") {
            if i + 1 < n {
                i += 1;
            }
        } else if is_either(arg, "-y", "--yacc") {
        } else if let Some(name) = text_behind(arg, "-o") {
            opts.output_file = Some(name);
        } else if let Some(prefix) = text_behind(arg, "-p") {
            opts.prefix = prefix;
        } else if let Some(name) = text_behind(arg, "--output=") {
            opts.output_file = Some(name);
        } else if let Some(prefix) = text_behind(arg, "--name-prefix=") {
            opts.prefix = prefix;
        } else if let Some(name) = text_behind(arg, "--defines=") {
            opts.defines = true;
            opts.header_file = Some(name);
        } else if text_behind(arg, "-").is_none() {
            opts.input_file = arg.clone();
        } else {
            let mut e: String = "unrecognized option: ".to_owned();
            e.append(arg.as_str());
            return Err(e);
        }
        i += 1;
    }
    if opts.input_file.as_str().unicode_len() == 0 {
        return Err("no input file".to_owned());
    }
    Ok(Command::Run(opts))
}

// ---------------------------------------------------------------------------
// Names of files
// ---------------------------------------------------------------------------

/// The last position ahead of `e` where `c` stands, or -1.
pub open spec fn last_before(s: Seq<char>, e: int, c: char) -> int
    decreases e,
{
    if e <= 0 {
        -1
    } else if s[e - 1] == c {
        e - 1
    } else {
        last_before(s, e - 1, c)
    }
}

/// The last name in the path `s` up to `e`: of the parts between slashes the last that is
/// neither empty nor a single dot.
pub open spec fn last_name(s: Seq<char>, e: int) -> Option<Seq<char>>
    decreases e,
{
    if e < 0 {
        None
    } else {
        let slash = last_before(s, e, '/');
        let part = s.subrange(slash + 1, e);
        proof {
            lemma_last_before(s, e, '/');
        }
        if part.len() > 0 && part != seq!['.'] {
            Some(part)
        } else if slash < 0 {
            None
        } else {
            last_name(s, slash)
        }
    }
}

/// The file name without what stands behind its last dot; all of it where that dot is its
/// first character.
pub open spec fn without_extension(name: Seq<char>) -> Seq<char> {
    let dot = last_before(name, name.len() as int, '.');
    if dot <= 0 {
        name
    } else {
        name.take(dot)
    }
}

/// The name that output files take from the path of the input: its last name without the
/// extension; `y` where the path names no file.
pub open spec fn stem(path: Seq<char>) -> Seq<char> {
    match last_name(path, path.len() as int) {
        Some(name) => if name == seq!['.', '.'] {
            "y"@
        } else {
            without_extension(name)
        },
        None => "y"@,
    }
}

/// Where `last_before` finds the character.
pub proof fn lemma_last_before(s: Seq<char>, e: int, c: char)
    requires
        0 <= e,
    ensures
        -1 <= last_before(s, e, c) < e || (e == 0 && last_before(s, e, c) == -1),
        0 <= last_before(s, e, c) ==> s[last_before(s, e, c)] == c,
    decreases e,
{
    if e > 0 && s[e - 1] != c {
        lemma_last_before(s, e - 1, c);
    }
}

/// Behind the last position ahead of `e` where `c` stands; zero where there is none.
fn start_after(chars: &Vec<char>, e: usize, c: char) -> (b: usize)
    requires
        e <= chars@.len(),
    ensures
        b == last_before(chars@, e as int, c) + 1,
        b <= e,
{
    let mut b: usize = e;
    while b > 0 && chars[b - 1] != c
        invariant
            b <= e <= chars@.len(),
            last_before(chars@, b as int, c) == last_before(chars@, e as int, c),
        decreases b,
    {
        b -= 1;
    }
    b
}

/// The name that output files take from the path of the input.
pub fn file_stem(path: &str) -> (r: String)
    ensures
        r@ == stem(path@),
{
    let chars: Vec<char> = chars_of(path);
    let mut e: usize = chars.len();
    loop
        invariant
            e <= chars@.len(),
            chars@ == path@,
            last_name(chars@, e as int) == last_name(path@, path@.len() as int),
        decreases e,
    {
        let b: usize = start_after(&chars, e, '/');
        let ghost part = chars@.subrange(b as int, e as int);
        proof {
            lemma_last_before(chars@, e as int, '/');
        }
        if e - b == 0 || (e - b == 1 && chars[b] == '.') {
            proof {
                assert(part.len() == 0 || part =~= seq!['.']);
            }
            if b == 0 {
                return "y".to_owned();
            }
            e = b - 1;
        } else if e - b == 2 && chars[b] == '.' && chars[b + 1] == '.' {
            proof {
                assert(part =~= seq!['.', '.']);
            }
            return "y".to_owned();
        } else {
            proof {
                assert(part != seq!['.']) by {
                    if part == seq!['.'] {
                        assert(part[0] == '.');
                    }
                }
                assert(part != seq!['.', '.']) by {
                    if part == seq!['.', '.'] {
                        assert(part[0] == '.' && part[1] == '.');
                        assert(part.len() == 2);
                    }
                }
            }
            let name: Vec<char> = chars_of(slice_text(&chars, b, e).as_str());
            let dot: usize = start_after(&name, name.len(), '.');
            if dot <= 1 {
                let r: String = slice_text(&chars, b, e);
                return r;
            }
            let r: String = slice_text(&name, 0, dot - 1);
            proof {
                assert(r@ =~= part.take(dot - 1));
            }
            return r;
        }
    }
}

/// The name of the source file where the command line gives none.
pub fn default_output_file(input: &str) -> (r: String)
    ensures
        r@ == stem(input@) + ".tab.c"@,
{
    let mut r: String = file_stem(input);
    r.append(".tab.c");
    r
}

/// The name of the report.
pub fn report_file(input: &str) -> (r: String)
    ensures
        r@ == stem(input@) + ".output"@,
{
    let mut r: String = file_stem(input);
    r.append(".output");
    r
}

/// The name of the header file that goes with a source file: `.h` in place of `.c` at the
/// end, or behind the name where it does not end so.
pub open spec fn header_name(output: Seq<char>) -> Seq<char> {
    if output.len() >= 2 && output[output.len() - 2] == '.' && output[output.len() - 1] == 'c' {
        output.drop_last() + "h"@
    } else {
        output + ".h"@
    }
}

/// The name of the header file where the command line gives none.
pub fn default_header_file(output: &str) -> (r: String)
    ensures
        r@ == header_name(output@),
{
    let chars: Vec<char> = chars_of(output);
    let n: usize = chars.len();
    if n >= 2 && chars[n - 2] == '.' && chars[n - 1] == 'c' {
        let mut r: String = slice_text(&chars, 0, n - 1);
        proof {
            assert(r@ =~= output@.drop_last());
        }
        r.append("h");
        return r;
    }
    let mut r: String = output.to_owned();
    r.append(".h");
    r
}

/// The name of the source file: the one that the command line gives, else one from the name
/// of the input.
pub open spec fn source_name(o: OptionsView) -> Seq<char> {
    match o.output_file {
        Some(name) => name,
        None => stem(o.input_file) + ".tab.c"@,
    }
}

/// The name of the header file, where one is wanted: by the command line, or by the grammar.
pub open spec fn wanted_header_name(o: OptionsView, by_grammar: bool) -> Option<Seq<char>> {
    if o.defines || by_grammar {
        match o.header_file {
            Some(name) => Some(name),
            None => Some(header_name(source_name(o))),
        }
    } else {
        None
    }
}

impl Options {
    /// The name of the source file.
    pub fn source_file(&self) -> (r: String)
        ensures
            r@ == source_name(self@),
    {
        match &self.output_file {
            Some(name) => name.clone(),
            None => default_output_file(self.input_file.as_str()),
        }
    }

    /// The name of the header file, where one is wanted.
    pub fn wanted_header(&self, by_grammar: bool) -> (r: Option<String>)
        ensures
            opt_text(r) == wanted_header_name(self@, by_grammar),
    {
        if !(self.defines || by_grammar) {
            return None;
        }
        match &self.header_file {
            Some(name) => Some(name.clone()),
            None => Some(default_header_file(self.source_file().as_str())),
        }
    }
}

// ---------------------------------------------------------------------------
// Warnings
// ---------------------------------------------------------------------------

/// A warning about conflicts of one sort, where `n` is their number.
pub open spec fn conflict_warning(file: Seq<char>, n: int, sort: Seq<char>) -> Seq<char> {
    "bison: "@ + file + ": warning: "@ + dec_int(n) + sort + (if n == 1 {
        Seq::empty()
    } else {
        "s"@
    })
}

/// The warning about conflicts between shifting and reducing, where one is due: where their
/// number is not the expected one, or where there are some and no number is expected.
pub open spec fn sr_warning(file: Seq<char>, expected: Option<i32>, sr: int) -> Option<Seq<char>> {
    match expected {
        Some(n) => if sr == n {
            None
        } else {
            Some(
                "bison: "@ + file + ": warning: "@ + dec_int(sr)
                    + " shift/reduce conflicts (expected "@ + dec_int(n as int) + ")"@,
            )
        },
        None => if sr > 0 {
            Some(conflict_warning(file, sr, " shift/reduce conflict"@))
        } else {
            None
        },
    }
}

/// The warning about conflicts between two rules, where one is due.
pub open spec fn rr_warning(file: Seq<char>, rr: int) -> Option<Seq<char>> {
    if rr > 0 {
        Some(conflict_warning(file, rr, " reduce/reduce conflict"@))
    } else {
        None
    }
}

/// A warning about `n` conflicts of one sort.
fn conflict_line(file: &str, n: i32, sort: &str) -> (r: String)
    ensures
        r@ == conflict_warning(file@, n as int, sort@),
{
    let mut r: String = "bison: ".to_owned();
    r.append(file);
    r.append(": warning: ");
    push_i32(&mut r, n);
    r.append(sort);
    let ghost before = r@;
    if n != 1 {
        r.append("s");
    } else {
        proof {
            assert(before + Seq::<char>::empty() =~= before);
        }
    }
    r
}

/// The warnings about conflicts: between shifting and reducing, and between two rules.
pub fn conflict_warnings(file: &str, expected: Option<i32>, sr: i32, rr: i32) -> (r: (
    Option<String>,
    Option<String>,
))
    ensures
        opt_text(r.0) == sr_warning(file@, expected, sr as int),
        opt_text(r.1) == rr_warning(file@, rr as int),
{
    let first: Option<String> = match expected {
        Some(n) => {
            if sr != n {
                let mut t: String = "bison: ".to_owned();
                t.append(file);
                t.append(": warning: ");
                push_i32(&mut t, sr);
                t.append(" shift/reduce conflicts (expected ");
                push_i32(&mut t, n);
                t.append(")");
                Some(t)
            } else {
                None
            }
        },
        None => if sr > 0 {
            Some(conflict_line(file, sr, " shift/reduce conflict"))
        } else {
            None
        },
    };
    let second: Option<String> = if rr > 0 {
        Some(conflict_line(file, rr, " reduce/reduce conflict"))
    } else {
        None
    };
    (first, second)
}

} // verus!
