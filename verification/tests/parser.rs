//! The parser: shapes of programs and its diagnostics.

use rsh::parser::{parse, CompoundCommand, Connector, Job, Pipeline, Unit};
use rsh::tokenizer::{tokenize, RedirectKind};

fn jobs(s: &str) -> Vec<Job> {
    parse(tokenize(s).expect("tokens")).expect("a program")
}

fn error(s: &str) -> String {
    match parse(tokenize(s).expect("tokens")) {
        Ok(jobs) => panic!("no error: {:?}", jobs),
        Err(e) => e,
    }
}

fn pipeline(job: &Job) -> &Pipeline {
    match &job.unit {
        Unit::Pipeline(p) => p,
        other => panic!("no pipeline: {:?}", other),
    }
}

fn words(job: &Job) -> Vec<String> {
    pipeline(job).commands[0].args.clone()
}

#[test]
fn lists_and_connectors() {
    let js = jobs(";; ".trim_matches(';'));
    assert!(js.is_empty());
    let js = jobs("; a 1 && b || c ; ; d");
    assert_eq!(js.len(), 4);
    assert_eq!(words(&js[0]), vec!["a", "1"]);
    assert_eq!(js[0].connector, Connector::And);
    assert_eq!(js[1].connector, Connector::Or);
    assert_eq!(js[2].connector, Connector::Sequence);
    assert_eq!(js[3].connector, Connector::Sequence);
    assert_eq!(words(&js[3]), vec!["d"]);
}

#[test]
fn pipelines_and_redirections() {
    let js = jobs("a < in | b x > out 2> err & c");
    assert_eq!(js.len(), 2);
    let p = pipeline(&js[0]);
    assert!(p.background);
    assert_eq!(p.commands.len(), 2);
    assert_eq!(p.commands[0].redirects[0].kind, RedirectKind::In);
    assert_eq!(p.commands[1].args, vec!["b", "x"]);
    assert_eq!(p.commands[1].redirects[0].target, "out");
    assert_eq!(p.commands[1].redirects[1].kind, RedirectKind::ErrOut);
    assert!(!pipeline(&js[1]).background);
    let js = jobs("> f");
    assert!(pipeline(&js[0]).commands[0].args.is_empty());
}

#[test]
fn conditions() {
    let js = jobs("if a; then b; elif c; then d; else e; fi");
    match &js[0].unit {
        Unit::Compound(CompoundCommand::If(chain)) => {
            assert_eq!(chain.branches.len(), 2);
            assert_eq!(words(&chain.branches[0].0[0]), vec!["a"]);
            assert_eq!(words(&chain.branches[1].1[0]), vec!["d"]);
            assert_eq!(words(&chain.else_body.as_ref().expect("else")[0]), vec!["e"]);
        }
        other => panic!("{:?}", other),
    }
}

#[test]
fn loops() {
    let js = jobs("for x in a b; do echo $x; done\nwhile a; do b; done\nuntil a; do b; done");
    assert_eq!(js.len(), 3);
    match &js[0].unit {
        Unit::Compound(CompoundCommand::For { var, words: items, body }) => {
            assert_eq!(var, "x");
            assert_eq!(items, &vec!["a", "b"]);
            assert_eq!(body.len(), 1);
        }
        other => panic!("{:?}", other),
    }
    for (k, expected) in [(1, false), (2, true)] {
        match &js[k].unit {
            Unit::Compound(CompoundCommand::While { until, .. }) => assert_eq!(*until, expected),
            other => panic!("{:?}", other),
        }
    }
}

#[test]
fn cases_groups_and_functions() {
    let js = jobs("case $x in a|b) one ;; *) two; esac; { g; h; }; f() { i; }; k() j 1");
    assert_eq!(js.len(), 4);
    match &js[0].unit {
        Unit::Compound(CompoundCommand::Case { word, arms }) => {
            assert_eq!(word, "$x");
            assert_eq!(arms.len(), 2);
            assert_eq!(arms[0].patterns, vec!["a", "b"]);
            assert_eq!(words(&arms[1].body[0]), vec!["two"]);
        }
        other => panic!("{:?}", other),
    }
    match &js[1].unit {
        Unit::Group(inner) => assert_eq!(inner.len(), 2),
        other => panic!("{:?}", other),
    }
    match &js[2].unit {
        Unit::Compound(CompoundCommand::FunctionDef { name, body }) => {
            assert_eq!(name, "f");
            assert_eq!(words(&body[0]), vec!["i"]);
        }
        other => panic!("{:?}", other),
    }
    match &js[3].unit {
        Unit::Compound(CompoundCommand::FunctionDef { name, body }) => {
            assert_eq!(name, "k");
            assert_eq!(words(&body[0]), vec!["j", "1"]);
        }
        other => panic!("{:?}", other),
    }
}

#[test]
fn diagnostics() {
    assert_eq!(error("a |"), "expected a command");
    assert_eq!(error("| a"), "expected a command");
    assert_eq!(error("a && b }"), "unexpected token at position 3: Some(RBrace)");
    assert_eq!(error("a ;; b"), "unexpected token at position 1: Some(CaseEnd)");
    assert_eq!(error("{ a"), "expected '}' to close the group");
    assert_eq!(error("f( a"), "expected ')' in function definition of 'f'");
    assert_eq!(error("if a; b"), "expected 'then', found None");
    assert_eq!(
        error("if a; then b; else c; done"),
        "expected 'fi', found None"
    );
    assert_eq!(
        error("if a; then b; }"),
        "expected 'fi', found Some(RBrace)"
    );
    assert_eq!(
        error("for | in"),
        "expected a variable name after 'for', found Some(Pipe)"
    );
    assert_eq!(
        error("for x \"a'b\""),
        "expected 'in', found Some(Word(\"a'b\"))"
    );
    assert_eq!(
        error("for x in a > f"),
        "expected 'do', found Some(Redirect(Out, \"f\"))"
    );
    assert_eq!(
        error("for x 'a\"\t'"),
        "expected 'in', found Some(Word(\"a\\\"\\u{1}\\t\"))"
    );
    assert_eq!(error("while a; b"), "expected 'do', found None");
    assert_eq!(error("until a; do b"), "expected 'done', found None");
    assert_eq!(error("case"), "expected a word after 'case', found None");
    assert_eq!(error("case x y"), "expected 'in', found Some(Word(\"y\"))");
    assert_eq!(error("case x in"), "expected 'esac' to close the 'case'");
    assert_eq!(
        error("case x in ( a"),
        "expected a pattern in 'case', found Some(LParen)"
    );
    assert_eq!(
        error("case x in a b"),
        "expected '|' or ')' in 'case', found Some(Word(\"b\"))"
    );
}
