//! Whole runs, with the names of files and the warnings.

use bison::cli::{parse_args, Command, Options};
use bison::driver::{run, run_with_upper, Run};

fn options(list: &[&str]) -> Options {
    let args: Vec<String> = list.iter().map(|s| s.to_string()).collect();
    match parse_args(&args) {
        Ok(Command::Run(o)) => o,
        _ => panic!("no run"),
    }
}

fn done(list: &[&str], text: &str) -> (Vec<String>, Vec<(String, String)>) {
    match run(&options(list), text) {
        Run::Done(w, f) => (w, f.into_iter().map(|f| (f.name, f.text)).collect()),
        _ => panic!("not done"),
    }
}

const SMALL: &str = "%token A B\n%%\ns: A s B | ;\n";
const AMBIGUOUS: &str = "%what\n%%\ne: e '+' e | N ;\n";

#[test]
fn only_the_source_file() {
    let (warnings, files) = done(&["dir/small.y"], SMALL);
    assert!(warnings.is_empty());
    assert_eq!(files.len(), 1);
    assert_eq!(files[0].0, "small.tab.c");
    assert!(files[0].1.contains("int yyparse(void) {\n"));
    assert!(files[0].1.contains("#define YYNSTATES 6\n"));
}

#[test]
fn header_and_report() {
    let (_, files) = done(&["-d", "-v", "-p", "zz", "small.y"], SMALL);
    let names: Vec<&str> = files.iter().map(|f| f.0.as_str()).collect();
    assert_eq!(names, vec!["small.tab.c", "small.tab.h", "small.output"]);
    assert!(files[0].1.contains("#define ZZNSTATES 6\n"));
    assert!(files[1].1.starts_with("#ifndef ZZ_TAB_H\n"));
    assert!(files[1].1.ends_with("extern YYSTYPE zzlval;\n\n#endif /* ZZ_TAB_H */\n"));
    assert!(files[2].1.starts_with("Grammar\n\n     0 $accept: s $end\n     1 s: A s B\n     2 s: /* empty */\n"));
}

#[test]
fn the_grammar_may_want_a_header() {
    let (_, files) = done(&["-o", "p.c", "small.y"], "%defines\n%%\ns: ;\n");
    let names: Vec<&str> = files.iter().map(|f| f.0.as_str()).collect();
    assert_eq!(names, vec!["p.c", "p.h"]);
}

#[test]
fn warnings_come_in_order() {
    let (warnings, _) = done(&["f.y"], AMBIGUOUS);
    assert_eq!(
        warnings,
        vec![
            "warning: unknown directive %what".to_string(),
            "bison: f.y: warning: 1 shift/reduce conflict".to_string()
        ]
    );
    let (expected, _) = done(&["f.y"], "%expect 1\n%%\ne: e '+' e | N ;\n");
    assert!(expected.is_empty());
}

#[test]
fn refused_files() {
    match run(&options(&["f.y"]), "%what\n%%\n") {
        Run::Refused(warnings, message) => {
            assert_eq!(warnings, vec!["warning: unknown directive %what".to_string()]);
            assert_eq!(message, "bison: f.y: no start symbol defined");
        }
        _ => panic!("not refused"),
    }
}

#[test]
fn limits_of_a_run() {
    for text in [
        "%token A 2147483647\n%%\ns: A ;\n",
        "%token A 2147483646\n%%\ns: A B ;\n",
        "%%\ns: '",
    ] {
        match run(&options(&["f.y"]), text) {
            Run::Limit(warnings) => assert!(warnings.is_empty()),
            _ => panic!("no limit"),
        }
    }
}

#[test]
fn warnings_come_with_a_limit() {
    // What stands behind the number that has no room is not read.
    let text = "%what\n%left '+'\n%ever x\n%token A 2147483647\n%more\n%%\ns: A ;\n";
    match run(&options(&["f.y"]), text) {
        Run::Limit(warnings) => assert_eq!(
            warnings,
            vec![
                "warning: unknown directive %what".to_string(),
                "warning: unknown directive %ever".to_string()
            ]
        ),
        _ => panic!("no limit"),
    }
    match run(&options(&["f.y"]), "%what\n%token A 2147483646\n%%\ns: A B ;\n") {
        Run::Limit(warnings) => {
            assert_eq!(warnings, vec!["warning: unknown directive %what".to_string()])
        }
        _ => panic!("no limit"),
    }
}

#[test]
fn upper_case_can_be_handed_in() {
    match run_with_upper(&options(&["-d", "f.y"]), "Up".to_string(), SMALL) {
        Run::Done(_, files) => {
            assert!(files[0].text.contains("#define UpNSTATES 6\n"));
            assert!(files[1].text.starts_with("#ifndef Up_TAB_H\n"));
        }
        _ => panic!("not done"),
    }
}
