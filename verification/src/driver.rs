//! A whole run: from options and the text of a grammar file to the files of a parser.

use crate::cli::{
    conflict_warnings, report_file, rr_warning, source_name, sr_warning, stem, wanted_header_name,
    Options, OptionsView,
};
use crate::codegen::{header_text, source_text, to_upper, uppercase, CodeGenerator};
use crate::grammar::{empty_grammar, texts, Grammar, GrammarView};
use crate::lexer::YaccParser;
use crate::parser::ParseError;
use crate::report::{generate_verbose_output, report_text};
use crate::syntax::{grammar_file, Outcome, Progress};
use crate::tables::{has_room, tables, TableGenerator};
use crate::text::opt_text;
use vstd::prelude::*;

verus! {

/// A file to be written: its name and its text.
#[derive(Debug)]
pub struct File {
    pub name: String,
    pub text: String,
}

/// What comes of a run.
#[derive(Debug)]
pub enum Run {
    /// The warnings, and the files to be written.
    Done(Vec<String>, Vec<File>),
    /// The warnings, and why the grammar file was refused.
    Refused(Vec<String>, String),
    /// A limit is passed: of numbers in the grammar file or in the tables, or of a literal
    /// that is cut off. The warnings up to there come with it.
    Limit(Vec<String>),
}

/// The model of a [`File`].
#[verifier::ext_equal]
pub struct FileView {
    pub name: Seq<char>,
    pub text: Seq<char>,
}

/// The model of a [`Run`].
#[verifier::ext_equal]
pub enum RunView {
    Done(Seq<Seq<char>>, Seq<FileView>),
    Refused(Seq<Seq<char>>, Seq<char>),
    Limit(Seq<Seq<char>>),
}

impl View for File {
    type V = FileView;

    open spec fn view(&self) -> FileView {
        FileView { name: self.name@, text: self.text@ }
    }
}

/// The models of a list of files.
pub open spec fn file_views(files: Seq<File>) -> Seq<FileView> {
    files.map_values(|f: File| f@)
}

impl View for Run {
    type V = RunView;

    open spec fn view(&self) -> RunView {
        match self {
            Run::Done(warnings, files) => RunView::Done(texts(warnings@), file_views(files@)),
            Run::Refused(warnings, message) => RunView::Refused(texts(warnings@), message@),
            Run::Limit(warnings) => RunView::Limit(texts(warnings@)),
        }
    }
}

/// One text, or none.
pub open spec fn optional(t: Option<Seq<char>>) -> Seq<Seq<char>> {
    match t {
        Some(t) => seq![t],
        None => Seq::empty(),
    }
}

/// The files of a parser for the grammar, where `u` is the prefix in upper case: the source
/// file, the header file where the command line or the grammar wants one, and the report
/// where it is wanted.
pub open spec fn product(o: OptionsView, u: Seq<char>, g: GrammarView) -> Seq<FileView> {
    let source = FileView { name: source_name(o), text: source_text(g, tables(g), o.prefix, u) };
    let files = match wanted_header_name(o, g.defines) {
        Some(name) => seq![source, FileView { name, text: header_text(g, o.prefix, u) }],
        None => seq![source],
    };
    if o.verbose {
        files.push(
            FileView { name: stem(o.input_file) + ".output"@, text: report_text(g, tables(g)) },
        )
    } else {
        files
    }
}

/// What comes of a run with the options on the text, where `u` is the prefix in upper case.
pub open spec fn outcome_of(o: OptionsView, u: Seq<char>, text: Seq<char>) -> RunView {
    match grammar_file(text, Progress { pos: 0, g: empty_grammar(), warnings: Seq::empty() }) {
        Outcome::Done(st) => if has_room(st.g) {
            let v = tables(st.g);
            RunView::Done(
                st.warnings + optional(
                    sr_warning(o.input_file, st.g.expect_conflicts, v.sr_conflicts),
                ) + optional(rr_warning(o.input_file, v.rr_conflicts)),
                product(o, u, st.g),
            )
        } else {
            RunView::Limit(st.warnings)
        },
        Outcome::Failed(st, message) => RunView::Refused(
            st.warnings,
            "bison: "@ + o.input_file + ": "@ + message,
        ),
        Outcome::Limit(warnings) => RunView::Limit(warnings),
    }
}

/// Appends the text where there is one.
fn push_optional(list: &mut Vec<String>, t: Option<String>)
    ensures
        texts(final(list)@) == texts(old(list)@) + optional(opt_text(t)),
{
    let ghost before = list@;
    match t {
        Some(s) => {
            list.push(s);
            proof {
                assert(texts(list@) =~= texts(before) + seq![s@]);
            }
        },
        None => {
            proof {
                assert(texts(before) + Seq::<Seq<char>>::empty() =~= texts(before));
            }
        },
    }
}

/// Appends a file.
fn push_file(files: &mut Vec<File>, name: String, text: String)
    ensures
        file_views(final(files)@) == file_views(old(files)@).push(
            (FileView { name: name@, text: text@ }),
        ),
{
    let ghost before = files@;
    files.push(File { name, text });
    proof {
        assert(file_views(files@) =~= file_views(before).push(
            FileView { name: name@, text: text@ },
        ));
    }
}

/// The files of a parser for the grammar with its tables, where `upper` is the prefix in
/// upper case.
fn files_of(options: &Options, upper: String, grammar: &Grammar, table: &TableGenerator) -> (files:
    Vec<File>)
    requires
        table.grammar == grammar,
        table.ready(),
    ensures
        file_views(files@) == product(options@, upper@, grammar@),
{
    let code = CodeGenerator::with_upper(grammar, table, options.prefix.clone(), upper);
    let mut files: Vec<File> = Vec::new();
    proof {
        assert(file_views(files@) =~= Seq::<FileView>::empty());
    }
    push_file(&mut files, options.source_file(), code.generate_source());
    match options.wanted_header(grammar.defines) {
        Some(name) => {
            push_file(&mut files, name, code.generate_header());
        },
        None => {},
    }
    if options.verbose {
        push_file(
            &mut files,
            report_file(options.input_file.as_str()),
            generate_verbose_output(grammar, table),
        );
    }
    files
}

/// A run with the options on the text of the grammar file, where `upper` is the prefix in
/// upper case.
pub fn run_with_upper(options: &Options, upper: String, text: &str) -> (r: Run)
    ensures
        r@ == outcome_of(options@, upper@, text@),
{
    let mut parser = YaccParser::new(text);
    proof {
        assert(parser.progress().warnings =~= Seq::<Seq<char>>::empty());
    }
    match parser.try_parse() {
        Ok(_) => {},
        Err(ParseError::Message(m)) => {
            let mut message: String = "bison: ".to_owned();
            message.append(options.input_file.as_str());
            message.append(": ");
            message.append(m.as_str());
            return Run::Refused(parser.warnings, message);
        },
        Err(ParseError::Limit) => {
            return Run::Limit(parser.warnings);
        },
    }
    let mut warnings: Vec<String> = parser.warnings;
    let grammar: Grammar = parser.grammar;
    let mut table = TableGenerator::new(&grammar);
    if !table.try_generate() {
        return Run::Limit(warnings);
    }
    let (sr, rr) = conflict_warnings(
        options.input_file.as_str(),
        grammar.expect_conflicts,
        table.sr_conflicts,
        table.rr_conflicts,
    );
    push_optional(&mut warnings, sr);
    push_optional(&mut warnings, rr);
    let files: Vec<File> = files_of(options, upper, &grammar, &table);
    Run::Done(warnings, files)
}

/// A run with the options on the text of the grammar file.
pub fn run(options: &Options, text: &str) -> (r: Run)
    ensures
        r@ == outcome_of(options@, uppercase(options@.prefix), text@),
{
    let upper: String = to_upper(options.prefix.as_str());
    run_with_upper(options, upper, text)
}

} // verus!
