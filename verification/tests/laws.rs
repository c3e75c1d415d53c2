//! Laws of the library on concrete values.

use rsh::arith::eval_arithmetic;
use rsh::builtins::{finish_builtin, run_builtin, BuiltinResult, ShellState};
use rsh::completion::{completion_candidates, DirEntry};
use rsh::executor::{run_jobs, Progress};
use rsh::expand::{command_substs, expand_args, WordInputs};
use rsh::jobs::{reap_finished_jobs, resolve_job};
use rsh::outside::{Next, Reply, Request};
use rsh::parser::{parse, CompoundCommand, Connector, Unit};
use rsh::table::Table;
use rsh::tokenizer::{tokenize, RedirectKind, Token};
use rsh::vars::Vars;

fn texts(v: &[&str]) -> Vec<String> {
    v.iter().map(|s| s.to_string()).collect()
}

fn word(w: &str) -> Token {
    Token::Word(w.to_string())
}

/// The words of a line, expanded, with these outputs for the first word's
/// commands.
fn expanded(line: &str, vars: &mut Vars, outputs: &[&str]) -> Vec<String> {
    let args: Vec<String> = tokenize(line)
        .expect("tokens")
        .into_iter()
        .map(|t| match t {
            Token::Word(w) => w,
            other => panic!("no word: {:?}", other),
        })
        .collect();
    let inputs: Vec<WordInputs> = args
        .iter()
        .map(|_| WordInputs {
            outputs: texts(outputs),
            paths: vec![],
        })
        .collect();
    expand_args(&args, vars, &texts(&["1st", "2nd"]), 7, &inputs)
}

#[test]
fn a_table_reads_back_what_was_written() {
    let mut t: Table<String> = Table::new();
    for (k, v) in [("a", "1"), ("b", "2"), ("a", "3")] {
        t.insert(k.to_string(), v.to_string());
    }
    assert_eq!(t.entries.len(), 2);
    assert_eq!(t.get("a"), Some(&"3".to_string()));
    assert_eq!(t.get("b"), Some(&"2".to_string()));
    t.remove("a");
    assert_eq!(t.get("a"), None);
    assert!(t.contains_key("b"));
}

#[test]
fn written_programs_read_back() {
    // if a; then { b | c > f &; }; else for x in y z; do d; done; fi
    let tokens = vec![
        word("if"),
        word("a"),
        Token::Semicolon,
        word("then"),
        Token::LBrace,
        word("b"),
        Token::Pipe,
        word("c"),
        Token::Redirect(RedirectKind::Out, "f".to_string()),
        Token::Background,
        Token::Semicolon,
        Token::RBrace,
        Token::Semicolon,
        word("else"),
        word("for"),
        word("x"),
        word("in"),
        word("y"),
        word("z"),
        Token::Semicolon,
        word("do"),
        word("d"),
        Token::And,
        word("done"),
        Token::Semicolon,
        word("fi"),
        Token::Or,
    ];
    let jobs = parse(tokens).expect("a program");
    assert_eq!(jobs.len(), 1);
    let chain = match &jobs[0].unit {
        Unit::Compound(CompoundCommand::If(chain)) => chain,
        other => panic!("{:?}", other),
    };
    match &chain.branches[0].1[0].unit {
        Unit::Group(inner) => match &inner[0].unit {
            Unit::Pipeline(p) => {
                assert!(p.background);
                assert_eq!(p.commands.len(), 2);
                assert_eq!(p.commands[1].redirects[0].target, "f");
            }
            other => panic!("{:?}", other),
        },
        other => panic!("{:?}", other),
    }
    match &chain.else_body.as_ref().expect("else")[0].unit {
        Unit::Compound(CompoundCommand::For { var, words, body }) => {
            assert_eq!(var, "x");
            assert_eq!(words, &texts(&["y", "z"]));
            assert_eq!(body.len(), 1);
        }
        other => panic!("{:?}", other),
    }
}

#[test]
fn quotes_protect_and_interpolate() {
    let mut vars = Vars::new();
    vars.insert("X".to_string(), "one".to_string());
    assert_eq!(
        expanded("c 'a  $X * ~' \"b  ${X} * $X-${#X}\" \\*\\ \\$X", &mut vars, &[]),
        texts(&["c", "a  $X * ~", "b  one * one-3", "* $X"])
    );
    assert_eq!(
        expanded("c \"${1} ${9:-none} $? ${#}\"", &mut vars, &[]),
        texts(&["c", "1st none 7 2"])
    );
    assert_eq!(expanded("c # ${X", &mut vars, &[]), texts(&["c"]));
    assert_eq!(expanded("c 'a\rb' a\\\rb", &mut vars, &[]), texts(&["c", "a\rb", "a\rb"]));
}

#[test]
fn quoted_values_stay_in_one_piece() {
    let mut vars = Vars::new();
    for value in ["a b", "*", "~", "  x ", "$X", "a\u{1}b", "[a]?"] {
        vars.insert("V".to_string(), value.to_string());
        assert_eq!(expanded("echo \"$V\"", &mut vars, &[]), texts(&["echo", value]));
        assert_eq!(expanded("\"${V}\"", &mut vars, &[]), texts(&[value]));
        assert_eq!(expanded("\"${W:-$}\" \"${V:-x}\"", &mut vars, &[]), texts(&["$", value]));
        assert_eq!(expanded("\"$(c)\"", &mut vars, &[value]), texts(&[value]));
        assert_eq!(expanded("'<'\"$(c)\"", &mut vars, &[value]), texts(&[&format!("<{}", value)]));
        assert_eq!(expanded("A=\"$V\"", &mut vars, &[]), texts(&[&format!("A={}", value)]));
    }
    vars.insert("V".to_string(), "a b".to_string());
    assert_eq!(
        expanded("\"x ${V} $(c) y\" \"$@\"", &mut vars, &["p  q"]),
        texts(&["x a b p  q y", "1st 2nd"])
    );
    assert_eq!(expanded("\"${N:=a b}\"", &mut vars, &[]), texts(&["a b"]));
    assert_eq!(vars.get("N"), Some(&"a b".to_string()));
    expanded("\"${M:?is missing}\"", &mut vars, &[]);
    assert_eq!(vars.notices, vec!["rsh: M: is missing"]);
}

#[test]
fn a_newline_separates_two_texts() {
    for (x, y) in [("a 'b c' | d", "e && f"), ("", "x"), ("\"$(a)\" &", "# y"), ("f(", ")")] {
        let mut both = tokenize(x).expect("tokens");
        both.push(Token::Semicolon);
        both.extend(tokenize(y).expect("tokens"));
        assert_eq!(tokenize(&format!("{}\n{}", x, y)), Ok(both));
    }
    // The second text may close what the first leaves open in double quotes.
    assert!(tokenize("\"$(\"").is_ok() && tokenize("'\"' ')'").is_ok());
    assert!(tokenize("\"$(\"\n'\"' ')'").is_err());
}

#[test]
fn flat_programs_keep_their_tokens() {
    let jobs = parse(tokenize("; a b > f | c && d & e < g ; h 2> i j || k").expect("tokens"))
        .expect("a program");
    let mut words: Vec<String> = Vec::new();
    let mut targets: Vec<String> = Vec::new();
    let mut pipes = 0;
    let mut background = 0;
    for job in &jobs {
        match &job.unit {
            Unit::Pipeline(p) => {
                pipes += p.commands.len() - 1;
                background += usize::from(p.background);
                for c in &p.commands {
                    words.extend(c.args.iter().cloned());
                    targets.extend(c.redirects.iter().map(|r| r.target.clone()));
                }
            }
            other => panic!("{:?}", other),
        }
    }
    assert_eq!(words, texts(&["a", "b", "c", "d", "e", "h", "j", "k"]));
    assert_eq!(targets, texts(&["f", "g", "i"]));
    assert_eq!((pipes, background), (1, 1));
    let connectors: Vec<Connector> = jobs.iter().map(|j| j.connector).collect();
    assert_eq!(
        connectors,
        vec![
            Connector::And,
            Connector::Sequence,
            Connector::Sequence,
            Connector::Or,
            Connector::Sequence
        ]
    );
}

#[test]
fn unquoted_results_split() {
    let mut vars = Vars::new();
    vars.insert("X".to_string(), "  a  b ".to_string());
    assert_eq!(expanded("c $X ${X}", &mut vars, &[]), texts(&["c", "a", "b", "a", "b"]));
    assert_eq!(command_substs("$(echo hi)"), texts(&["echo hi"]));
    assert_eq!(
        expanded("$(x) $(x)", &mut vars, &["p *  $X"]),
        texts(&["p", "*", "$X", "p", "*", "$X"])
    );
    assert_eq!(expanded("c $@ $#", &mut vars, &[]), texts(&["c", "1st", "2nd", "2"]));
}

#[test]
fn expressions_have_their_values() {
    let mut vars = Vars::new();
    vars.insert("n".to_string(), " 6 ".to_string());
    vars.insert("m".to_string(), "x".to_string());
    let positional = texts(&["4"]);
    let value = |s: &str| eval_arithmetic(s, &vars, &positional);
    assert_eq!(value("1 + 2 * 3"), 7);
    assert_eq!(value("(1 + 2) * 3"), 9);
    assert_eq!(value("10 - 3 - 2"), 5);
    assert_eq!(value("-n + ${n} * $1 % 5"), -2);
    assert_eq!(value("+n / -4"), -1);
    assert_eq!(value("m + $m + q"), 0);
    assert_eq!(value("7 / 0 + 7 % 0"), 0);
    assert_eq!(value("9223372036854775807 + 1"), 0);
}

#[test]
fn completion_only_adds() {
    let entries = vec![
        DirEntry {
            name: "bin".to_string(),
            is_dir: true,
            mode: Some(0o755),
        },
        DirEntry {
            name: "bash".to_string(),
            is_dir: false,
            mode: Some(0o755),
        },
    ];
    assert_eq!(completion_candidates("/usr/b", &entries), texts(&["/usr/bin/", "/usr/bash"]));
    assert_eq!(completion_candidates("b", &entries), texts(&["bin", "bash"]));
    assert_eq!(completion_candidates("ba", &entries), texts(&["bash"]));
    assert_eq!(completion_candidates("un", &entries), texts(&["unset", "unalias", "until"]));
}

#[test]
fn job_ids_stay_unique() {
    let mut st = ShellState::new();
    for pid in [10, 20, 30] {
        st.add_job(format!("job {}", pid), pid);
    }
    reap_finished_jobs(&mut st, &[None, Some(0), None], false);
    let step = run_builtin(&texts(&["wait", "10"]), &mut st).expect("a builtin");
    match step.next {
        Next::Ask(request) => {
            finish_builtin(request, Reply::Statuses(vec![Some(1)]), &mut st);
        }
        other => panic!("{:?}", other),
    }
    st.add_stopped_job("late".to_string(), 40);
    let ids: Vec<usize> = st.jobs.iter().map(|j| j.id).collect();
    assert_eq!(ids, vec![3, 4]);
    assert_eq!(resolve_job(&st, Some("%3")), Some(0));
    assert_eq!(resolve_job(&st, Some("4")), Some(1));
    assert_eq!(resolve_job(&st, Some("%2")), None);
}

#[test]
fn names_stay_distinct_through_a_program() {
    let program = "a=1; a=2; f() true; f() false; alias x=1 x=2; export a=3 b=4; unset b";
    let jobs = parse(tokenize(program).expect("tokens")).expect("a program");
    let mut st = ShellState::new();
    match run_jobs(&jobs, &mut st) {
        Progress::Finished(exit, _) => assert_eq!(exit, None),
        other => panic!("{:?}", other),
    }
    assert_eq!(st.vars.shell.entries.len(), 1);
    assert_eq!(st.vars.env.entries.len(), 1);
    assert_eq!(st.functions.entries.len(), 1);
    assert_eq!(st.aliases.entries.len(), 1);
    assert_eq!(st.vars.get("a"), Some(&"3".to_string()));
}

#[test]
fn only_defaults_assign() {
    let mut vars = Vars::new();
    vars.insert("X".to_string(), "v".to_string());
    expanded("$X ${X} ${Y:-a} ${Y:+a} ${#Y} $((Y + 1)) \"${Y:-=}\" '${Y:=a}'", &mut vars, &[]);
    assert_eq!(vars.get("Y"), None);
    assert_eq!(vars.env.get("Y"), None);
    expanded("${Y:=a}", &mut vars, &[]);
    assert_eq!(vars.get("Y"), Some(&"a".to_string()));
}

#[test]
fn only_exit_leaves_the_shell() {
    let mut state = ShellState::new();
    for (line, code) in [("exit", 0), ("exit 7", 7), ("exit x", 0), ("exit -1 2", -1)] {
        let args: Vec<String> = line.split(' ').map(|w| w.to_string()).collect();
        match run_builtin(&args, &mut state).map(|s| s.next) {
            Some(Next::Done(BuiltinResult::Exit(c))) => assert_eq!(c, code),
            other => panic!("{:?}", other),
        }
    }
    for name in [
        "cd", "pwd", "export", "unset", "echo", "alias", "unalias", "which", "type", "test", "[",
        "jobs", "fg", "bg", "wait", "disown", "kill", "read",
    ] {
        let step = run_builtin(&texts(&[name, "exit"]), &mut state).expect("a builtin");
        assert!(!matches!(step.next, Next::Done(BuiltinResult::Exit(_))));
    }
    assert!(run_builtin(&texts(&["leave"]), &mut state).is_none());
    assert!(run_builtin(&[], &mut state).is_none());
}

#[test]
fn going_back_swaps_the_directories() {
    let mut state = ShellState::new();
    let moved = |before: &str, outcome: Result<Option<String>, String>| Reply::Moved {
        before: Some(before.to_string()),
        outcome,
    };
    let change = |args: &[&str], target: &str, reply: Reply, state: &mut ShellState| {
        match run_builtin(&texts(args), state).map(|s| s.next) {
            Some(Next::Ask(request)) => {
                match &request {
                    Request::ChangeDir { target: t } => assert_eq!(t, target),
                    other => panic!("{:?}", other),
                }
                finish_builtin(request, reply, state)
            }
            other => panic!("{:?}", other),
        }
    };
    change(&["cd", "d"], "d", moved("/a", Ok(Some("/a/d".to_string()))), &mut state);
    let refused = moved("/a/d", Err("gone".to_string()));
    let step = change(&["cd", "-"], "/a", refused, &mut state);
    assert!(matches!(step.next, Next::Done(BuiltinResult::Status(1))));
    assert_eq!(state.prev_dir, Some("/a".to_string()));
    assert_eq!(state.vars.get("PWD"), Some(&"/a/d".to_string()));
    let step = change(&["cd", "-"], "/a", moved("/a/d", Ok(Some("/a".to_string()))), &mut state);
    assert!(matches!(step.next, Next::Done(BuiltinResult::Status(0))));
    assert_eq!(state.prev_dir, Some("/a/d".to_string()));
    assert_eq!(state.vars.get("PWD"), Some(&"/a".to_string()));
    assert_eq!(state.vars.get("OLDPWD"), Some(&"/a/d".to_string()));
}
