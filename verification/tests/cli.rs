//! The command line.

use bison::cli::{
    conflict_warnings, default_header_file, default_output_file, file_stem, parse_args,
    report_file, Command, Options,
};
use std::path::Path;

fn args(list: &[&str]) -> Vec<String> {
    list.iter().map(|s| s.to_string()).collect()
}

fn options(list: &[&str]) -> Options {
    match parse_args(&args(list)) {
        Ok(Command::Run(o)) => o,
        _ => panic!("no run"),
    }
}

fn failure(list: &[&str]) -> String {
    match parse_args(&args(list)) {
        Err(e) => e,
        Ok(_) => panic!("accepted"),
    }
}

#[test]
fn defaults() {
    let o = options(&["a.y"]);
    assert_eq!(o.input_file, "a.y");
    assert_eq!(o.output_file, None);
    assert_eq!(o.header_file, None);
    assert!(!o.verbose && !o.defines);
    assert_eq!(o.prefix, "yy");
}

#[test]
fn flags_and_names() {
    let o = options(&["-d", "-v", "-o", "out.c", "-p", "zz", "-b", "ignored", "-y", "a.y"]);
    assert!(o.defines && o.verbose);
    assert_eq!(o.output_file, Some("out.c".to_string()));
    assert_eq!(o.prefix, "zz");
    assert_eq!(o.input_file, "a.y");
    let p = options(&["--defines", "--verbose", "--output", "x", "--name-prefix", "q", "--file-prefix", "f", "--yacc", "b.y"]);
    assert!(p.defines && p.verbose);
    assert_eq!(p.output_file, Some("x".to_string()));
    assert_eq!(p.prefix, "q");
    assert_eq!(p.input_file, "b.y");
}

#[test]
fn names_in_the_same_argument() {
    let o = options(&["-oout.c", "-pzz", "--defines=h.h", "a.y"]);
    assert_eq!(o.output_file, Some("out.c".to_string()));
    assert_eq!(o.prefix, "zz");
    assert_eq!(o.header_file, Some("h.h".to_string()));
    assert!(o.defines);
    let p = options(&["--output=o.c", "--name-prefix=n", "a.y", "b.y"]);
    assert_eq!(p.output_file, Some("o.c".to_string()));
    assert_eq!(p.prefix, "n");
    assert_eq!(p.input_file, "b.y");
}

#[test]
fn version_and_help() {
    for list in [&["-V"], &["--version"]] {
        match parse_args(&args(list)) {
            Ok(Command::Version) => {}
            _ => panic!("no version"),
        }
    }
    for list in [["-h", "--nonsense"], ["--help", "-o"]] {
        match parse_args(&args(&list)) {
            Ok(Command::Help) => {}
            _ => panic!("no help"),
        }
    }
}

#[test]
fn errors() {
    assert_eq!(failure(&[]), "no input file");
    assert_eq!(failure(&[""]), "no input file");
    assert_eq!(failure(&["-o"]), "-o requires an argument");
    assert_eq!(failure(&["a.y", "--output"]), "-o requires an argument");
    assert_eq!(failure(&["-p"]), "-p requires an argument");
    assert_eq!(failure(&["--name-prefix"]), "-p requires an argument");
    assert_eq!(failure(&["--what", "-V"]), "unrecognized option: --what");
    assert_eq!(failure(&["-"]), "unrecognized option: -");
    assert_eq!(failure(&["-b"]), "no input file");
    assert_eq!(options(&["a.y", "-b"]).input_file, "a.y");
}

#[test]
fn stems() {
    for path in [
        "a.y", "a", "dir/a.y", "dir.d/a", "/x/y.tab.z", ".hidden", ".hidden.y", "a.", "a..y", "..a",
        "dir/", "dir//", "dir/.", "dir/./.", "./a.y", "a/../b.y", "é.y", "...", "a/..b", " .y",
    ] {
        assert_eq!(
            file_stem(path),
            Path::new(path).file_stem().unwrap().to_str().unwrap(),
            "{}",
            path
        );
    }
    for path in ["", ".", "..", "/", "//", "./", "a/..", "/.", "./."] {
        assert_eq!(Path::new(path).file_stem(), None, "{}", path);
        assert_eq!(file_stem(path), "y", "{}", path);
    }
}

#[test]
fn names_of_files() {
    assert_eq!(default_output_file("dir/calc.y"), "calc.tab.c");
    assert_eq!(default_output_file(".."), "y.tab.c");
    assert_eq!(report_file("dir/calc.y"), "calc.output");
    assert_eq!(default_header_file("calc.tab.c"), "calc.tab.h");
    assert_eq!(default_header_file(".c"), ".h");
    assert_eq!(default_header_file("calc"), "calc.h");
    assert_eq!(default_header_file("c"), "c.h");
    assert_eq!(default_header_file(&default_output_file("x.y")), "x.tab.h");
}

#[test]
fn names_that_options_give() {
    let o = options(&["a.y"]);
    assert_eq!(o.source_file(), "a.tab.c");
    assert_eq!(o.wanted_header(false), None);
    assert_eq!(o.wanted_header(true), Some("a.tab.h".to_string()));
    let p = options(&["-d", "-o", "b.c", "a.y"]);
    assert_eq!(p.source_file(), "b.c");
    assert_eq!(p.wanted_header(false), Some("b.h".to_string()));
    let q = options(&["--defines=x.h", "a.y"]);
    assert_eq!(q.wanted_header(false), Some("x.h".to_string()));
}

#[test]
fn warnings_about_conflicts() {
    assert_eq!(conflict_warnings("f", None, 0, 0), (None, None));
    assert_eq!(
        conflict_warnings("f", None, 1, 1),
        (
            Some("bison: f: warning: 1 shift/reduce conflict".to_string()),
            Some("bison: f: warning: 1 reduce/reduce conflict".to_string())
        )
    );
    assert_eq!(
        conflict_warnings("f", None, 2, 3),
        (
            Some("bison: f: warning: 2 shift/reduce conflicts".to_string()),
            Some("bison: f: warning: 3 reduce/reduce conflicts".to_string())
        )
    );
    assert_eq!(conflict_warnings("f", Some(2), 2, 0), (None, None));
    assert_eq!(
        conflict_warnings("f", Some(1), 0, 0).0,
        Some("bison: f: warning: 0 shift/reduce conflicts (expected 1)".to_string())
    );
}
