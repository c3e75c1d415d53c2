//! Builtins: tests, jobs, signals, `read`, directories, variables, aliases.

use rsh::builtins::{
    finish_builtin, is_builtin, join_path, run_builtin, split_at, BuiltinResult, JobRecord,
    ShellState,
};
use rsh::jobctl::FgOutcome;
use rsh::jobs::{reap_finished_jobs, reapable_pids, resolve_job, resolve_pid, signal_from_name, signal_number};
use rsh::outside::{JobsStyle, Next, ReadOutcome, Reply, Request, Signal, Step};
use rsh::readcmd::{assign_read_fields, read_step, ReadStep};
use rsh::report::Line;
use rsh::testcmd::{builtin_test, eval_test, path_stat, FileFacts, TestPath};
use rsh::vars::Vars;

fn texts(v: &[&str]) -> Vec<String> {
    v.iter().map(|s| s.to_string()).collect()
}

fn run(expr: &[&str]) -> i32 {
    let operands: Vec<String> = expr.iter().map(|s| s.to_string()).collect();
    eval_test(&operands, None, &mut Vec::new())
}

const DIRECTORY: FileFacts = FileFacts {
    is_file: false,
    is_dir: true,
    len: 4096,
    mode: 0o41777,
};

#[test]
fn test_plain_string() {
    assert_eq!(run(&[""]), 1);
    assert_eq!(run(&["x"]), 0);
}

#[test]
fn test_negation() {
    assert_eq!(run(&["!", "x"]), 1);
    assert_eq!(run(&["!", ""]), 0);
}

#[test]
fn test_string_unary() {
    assert_eq!(run(&["-z", ""]), 0);
    assert_eq!(run(&["-z", "a"]), 1);
    assert_eq!(run(&["-n", "a"]), 0);
    assert_eq!(run(&["-n", ""]), 1);
}

#[test]
fn test_string_binary() {
    assert_eq!(run(&["abc", "=", "abc"]), 0);
    assert_eq!(run(&["abc", "=", "xyz"]), 1);
    assert_eq!(run(&["abc", "!=", "xyz"]), 0);
}

#[test]
fn test_integer_binary() {
    assert_eq!(run(&["3", "-eq", "3"]), 0);
    assert_eq!(run(&["2", "-lt", "5"]), 0);
    assert_eq!(run(&["5", "-gt", "2"]), 0);
    assert_eq!(run(&["4", "-le", "4"]), 0);
    assert_eq!(run(&["4", "-ge", "5"]), 1);
}

#[test]
fn test_bracket_requires_closing() {
    let args = vec!["[".to_string(), "-d".to_string(), "/tmp".to_string()];
    assert_eq!(builtin_test(&args, Some(DIRECTORY), &mut Vec::new()), 2);
}

#[test]
fn test_bracket_syntax() {
    let args = vec![
        "[".to_string(),
        "-d".to_string(),
        "/tmp".to_string(),
        "]".to_string(),
    ];
    assert_eq!(builtin_test(&args, Some(DIRECTORY), &mut Vec::new()), 0);
}

#[test]
fn test_read_assign_fields() {
    let mut m = Vars::new();
    let vars: Vec<String> = ["x", "y", "z"].iter().map(|s| s.to_string()).collect();
    assign_read_fields("a b c d", &vars, &mut m);
    assert_eq!(m.get("x"), Some(&"a".to_string()));
    assert_eq!(m.get("y"), Some(&"b".to_string()));
    // The last variable receives the rest of the line.
    assert_eq!(m.get("z"), Some(&"c d".to_string()));
}

#[test]
fn test_read_assign_fields_missing() {
    let mut m = Vars::new();
    let vars: Vec<String> = ["a", "b"].iter().map(|s| s.to_string()).collect();
    assign_read_fields("only", &vars, &mut m);
    assert_eq!(m.get("a"), Some(&"only".to_string()));
    assert_eq!(m.get("b"), Some(&String::new()));
}

#[test]
fn test_resolve_job_specifiers() {
    let mut st = ShellState::new();
    st.jobs.push(JobRecord {
        id: 1,
        pid: 100,
        command: "one".into(),
        stopped: false,
    });
    st.jobs.push(JobRecord {
        id: 2,
        pid: 200,
        command: "two".into(),
        stopped: false,
    });

    // %+ / default resolve to the most recent job (last in the table).
    assert_eq!(resolve_job(&st, Some("%+")), Some(1));
    assert_eq!(resolve_job(&st, None), Some(1));
    // %- resolves to the second-most-recent.
    assert_eq!(resolve_job(&st, Some("%-")), Some(0));
    // %N and bare N resolve by job id; a bare number can also be a pid.
    assert_eq!(resolve_job(&st, Some("%1")), Some(0));
    assert_eq!(resolve_job(&st, Some("1")), Some(0));
    assert_eq!(resolve_job(&st, Some("200")), Some(1));
    assert_eq!(resolve_job(&st, Some("%9")), None);
}

// Helpers for whole builtins.

fn done(step: &Step) -> i32 {
    match &step.next {
        Next::Done(BuiltinResult::Status(s)) => *s,
        other => panic!("not done: {:?}", other),
    }
}

fn out(lines: &[Line]) -> String {
    let v: Vec<String> = lines
        .iter()
        .filter(|l| !l.error)
        .map(|l| l.text.clone())
        .collect();
    v.concat()
}

fn err(lines: &[Line]) -> String {
    let v: Vec<String> = lines
        .iter()
        .filter(|l| l.error)
        .map(|l| l.text.clone())
        .collect();
    v.concat()
}

fn builtin(args: &[&str], st: &mut ShellState) -> Step {
    run_builtin(&texts(args), st).expect("a builtin")
}

fn asked(step: Step) -> Request {
    match step.next {
        Next::Ask(q) => q,
        other => panic!("nothing asked: {:?}", other),
    }
}

fn finish(args: &[&str], reply: Reply, st: &mut ShellState) -> Step {
    let request = asked(builtin(args, st));
    finish_builtin(request, reply, st)
}

#[test]
fn builtins_are_known_by_name() {
    for name in [
        "cd", "pwd", "exit", "export", "unset", "echo", "alias", "unalias", "which", "type",
        "test", "[", "jobs", "fg", "bg", "wait", "disown", "kill", "read",
    ] {
        assert!(is_builtin(name), "{}", name);
    }
    assert!(!is_builtin("ls"));
    assert!(!is_builtin(""));
    let mut st = ShellState::new();
    assert!(run_builtin(&texts(&["ls"]), &mut st).is_none());
    assert!(run_builtin(&[], &mut st).is_none());
}

#[test]
fn tests_that_are_misused() {
    let mut lines = Vec::new();
    assert_eq!(eval_test(&texts(&["a", "-eq", "1"]), None, &mut lines), 2);
    assert_eq!(eval_test(&texts(&["1", "-le", "x"]), None, &mut lines), 2);
    assert_eq!(eval_test(&texts(&["a", "~", "b"]), None, &mut lines), 2);
    assert_eq!(eval_test(&texts(&["-q", "b"]), None, &mut lines), 2);
    assert_eq!(eval_test(&texts(&["!"]), None, &mut lines), 2);
    assert_eq!(eval_test(&texts(&["1", "2", "3", "4"]), None, &mut lines), 2);
    assert_eq!(
        err(&lines),
        "test: integer expression expected\n\
         test: integer expression expected\n\
         test: binary operator expected\n\
         test: unary operator expected\n\
         test: argument expected\n\
         test: too many arguments\n"
    );
    assert_eq!(run(&[]), 1);
    assert_eq!(run(&[" 3 ", "-ne", "+4"]), 0);
    assert_eq!(run(&["!", "!", "x"]), 0);
}

#[test]
fn tests_on_paths() {
    let file = FileFacts {
        is_file: true,
        is_dir: false,
        len: 0,
        mode: 0o100640,
    };
    assert_eq!(path_stat(Some(file), TestPath::Exists), 0);
    assert_eq!(path_stat(Some(file), TestPath::File), 0);
    assert_eq!(path_stat(Some(file), TestPath::Dir), 1);
    assert_eq!(path_stat(Some(file), TestPath::NonEmpty), 1);
    assert_eq!(path_stat(Some(file), TestPath::Readable), 0);
    assert_eq!(path_stat(Some(file), TestPath::Writable), 0);
    assert_eq!(path_stat(Some(file), TestPath::Executable), 1);
    assert_eq!(path_stat(None, TestPath::Exists), 1);
    let mut st = ShellState::new();
    match asked(builtin(&["[", "!", "-x", "/bin/x", "]"], &mut st)) {
        Request::LookAt { operands, path } => {
            assert_eq!(operands, texts(&["!", "-x", "/bin/x"]));
            assert_eq!(path, "/bin/x");
        }
        other => panic!("{:?}", other),
    }
    let step = finish(&["test", "!", "-x", "f"], Reply::Facts(Some(file)), &mut st);
    assert_eq!(done(&step), 0);
    let step = finish(&["test", "-e", "f"], Reply::Facts(None), &mut st);
    assert_eq!(done(&step), 1);
    assert_eq!(done(&builtin(&["test", "a", "=", "a"], &mut st)), 0);
}

#[test]
fn a_reply_that_does_not_fit_is_asked_for_again() {
    let mut st = ShellState::new();
    let step = finish(&["pwd"], Reply::Resumed, &mut st);
    assert!(matches!(step.next, Next::Ask(Request::CurrentDir)));
}

#[test]
fn directories() {
    let mut st = ShellState::new();
    match asked(builtin(&["cd"], &mut st)) {
        Request::ChangeDir { target } => assert_eq!(target, "/"),
        other => panic!("{:?}", other),
    }
    st.vars.export("HOME".to_string(), "/home/u".to_string());
    match asked(builtin(&["cd"], &mut st)) {
        Request::ChangeDir { target } => assert_eq!(target, "/home/u"),
        other => panic!("{:?}", other),
    }
    let step = builtin(&["cd", "-"], &mut st);
    assert_eq!(done(&step), 1);
    assert_eq!(err(&step.lines), "cd: OLDPWD is not set\n");

    let moved = Reply::Moved {
        before: Some("/a".to_string()),
        outcome: Ok(Some("/b".to_string())),
    };
    assert_eq!(done(&finish(&["cd", "b"], moved, &mut st)), 0);
    assert_eq!(st.vars.get("OLDPWD"), Some(&"/a".to_string()));
    assert_eq!(st.vars.env.get("PWD"), Some(&"/b".to_string()));
    match asked(builtin(&["cd", "-"], &mut st)) {
        Request::ChangeDir { target } => assert_eq!(target, "/a"),
        other => panic!("{:?}", other),
    }
    let failed = Reply::Moved {
        before: Some("/b".to_string()),
        outcome: Err("No such file".to_string()),
    };
    let step = finish(&["cd", "zz"], failed, &mut st);
    assert_eq!(done(&step), 1);
    assert_eq!(err(&step.lines), "cd: zz: No such file\n");
    assert_eq!(st.prev_dir, Some("/a".to_string()));

    let step = finish(&["pwd"], Reply::Dir(Ok("/b".to_string())), &mut st);
    assert_eq!(out(&step.lines), "/b\n");
    let step = finish(&["pwd"], Reply::Dir(Err("gone".to_string())), &mut st);
    assert_eq!((done(&step), err(&step.lines)), (1, "pwd: gone\n".to_string()));
}

#[test]
fn exit_codes() {
    let mut st = ShellState::new();
    let code = |args: &[&str]| match builtin(args, &mut ShellState::new()).next {
        Next::Done(BuiltinResult::Exit(c)) => c,
        other => panic!("{:?}", other),
    };
    assert_eq!(code(&["exit"]), 0);
    assert_eq!(code(&["exit", "3"]), 3);
    assert_eq!(code(&["exit", "-1"]), -1);
    assert_eq!(code(&["exit", "x"]), 0);
    assert_eq!(st.last_status, 0);
    st.last_status = 1;
    assert_eq!(code(&["exit", "99999999999"]), 0);
}

#[test]
fn variables_are_exported_and_unset() {
    let mut st = ShellState::new();
    let step = builtin(&["export", "A=1", "B=x=y", "bad", "C=3"], &mut st);
    assert_eq!(done(&step), 1);
    assert_eq!(
        err(&step.lines),
        "export: bad: invalid format, use VAR=value\n"
    );
    assert_eq!(st.vars.env.get("A"), Some(&"1".to_string()));
    assert_eq!(st.vars.get("B"), Some(&"x=y".to_string()));
    assert_eq!(st.vars.get("C"), None);
    assert_eq!(
        out(&builtin(&["export"], &mut st).lines),
        "export A=\"1\"\nexport B=\"x=y\"\n"
    );
    assert_eq!(done(&builtin(&["unset", "A", "Z"], &mut st)), 0);
    assert_eq!(st.vars.get("A"), None);
    assert_eq!(st.vars.env.get("A"), None);
}

#[test]
fn echo_writes_its_words() {
    let mut st = ShellState::new();
    assert_eq!(out(&builtin(&["echo", "a", "b  c"], &mut st).lines), "a b  c\n");
    assert_eq!(out(&builtin(&["echo", "-n", "a", "b"], &mut st).lines), "a b");
    assert_eq!(out(&builtin(&["echo"], &mut st).lines), "\n");
}

#[test]
fn aliases_are_set_shown_and_dropped() {
    let mut st = ShellState::new();
    let step = builtin(&["alias", "ll=ls -la", "ll", "zz", "x=y"], &mut st);
    assert_eq!(done(&step), 1);
    assert_eq!(out(&step.lines), "alias ll='ls -la'\n");
    assert_eq!(err(&step.lines), "alias: zz: not found\n");
    assert_eq!(st.aliases.get("x"), None);
    builtin(&["alias", "a=b"], &mut st);
    assert_eq!(
        out(&builtin(&["alias"], &mut st).lines),
        "alias ll='ls -la'\nalias a='b'\n"
    );
    builtin(&["unalias", "ll"], &mut st);
    assert_eq!(out(&builtin(&["alias"], &mut st).lines), "alias a='b'\n");
}

#[test]
fn commands_are_found() {
    let mut st = ShellState::new();
    st.functions.insert("f".to_string(), Vec::new());
    st.vars
        .export("PATH".to_string(), "/bin:/usr/bin/::d".to_string());
    assert_eq!(done(&builtin(&["which"], &mut st)), 1);
    assert_eq!(
        out(&builtin(&["type", "cd"], &mut st).lines),
        "cd: shell builtin\n"
    );
    assert_eq!(
        out(&builtin(&["which", "f"], &mut st).lines),
        "f: shell function\n"
    );
    match asked(builtin(&["which", "ls"], &mut st)) {
        Request::FirstFile { name, candidates } => {
            assert_eq!(name, "ls");
            assert_eq!(
                candidates,
                texts(&["/bin/ls", "/usr/bin/ls", "ls", "d/ls"])
            );
        }
        other => panic!("{:?}", other),
    }
    let step = finish(&["which", "ls"], Reply::Found(Some(1)), &mut st);
    assert_eq!((done(&step), out(&step.lines)), (0, "/usr/bin/ls\n".to_string()));
    let step = finish(&["which", "ls"], Reply::Found(None), &mut st);
    assert_eq!((done(&step), out(&step.lines)), (1, "ls: not found\n".to_string()));
    assert_eq!(join_path("/a", "/b"), "/b");
    assert_eq!(split_at("", ':'), texts(&[""]));
}

fn two_jobs() -> ShellState {
    let mut st = ShellState::new();
    assert_eq!(st.add_job("sleep 5".to_string(), 100), 1);
    assert_eq!(st.add_stopped_job("vi x".to_string(), 200), 2);
    st
}

#[test]
fn jobs_are_listed() {
    let mut st = two_jobs();
    match asked(builtin(&["jobs"], &mut st)) {
        Request::Reap { pids, style } => {
            assert_eq!(pids, vec![100, 200]);
            assert_eq!(style, JobsStyle::Plain);
        }
        other => panic!("{:?}", other),
    }
    let step = finish(&["jobs"], Reply::Statuses(vec![None, None]), &mut st);
    assert_eq!(
        out(&step.lines),
        "[ 1] Running  sleep 5\n[ 2] Stopped  vi x\n"
    );
    let step = finish(&["jobs", "-l"], Reply::Statuses(vec![None, None]), &mut st);
    assert_eq!(
        out(&step.lines),
        "[ 1] 100 Running  sleep 5\n[ 2] 200 Stopped  vi x\n"
    );
    let step = finish(&["jobs", "-p"], Reply::Statuses(vec![Some(0), None]), &mut st);
    assert_eq!(
        out(&step.lines),
        "100 Done     sleep 5\n200 Stopped  vi x\n"
    );
    assert_eq!(st.jobs.len(), 1);
    assert_eq!(st.jobs[0].pid, 200);
    assert_eq!(st.next_job_id, 3);
}

#[test]
fn jobs_move_between_foreground_and_background() {
    let mut st = two_jobs();
    let step = builtin(&["fg", "%1"], &mut st);
    assert_eq!(out(&step.lines), "sleep 5\n");
    assert!(matches!(
        step.next,
        Next::Ask(Request::Foreground { index: 0, pid: 100 })
    ));
    let step = finish(&["fg", "%1"], Reply::Foreground(FgOutcome::Stopped), &mut st);
    assert_eq!(done(&step), 0);
    assert!(st.jobs[0].stopped);
    let step = builtin(&["bg", "%1"], &mut st);
    assert_eq!(out(&step.lines), "[1] sleep 5 &\n");
    assert!(matches!(step.next, Next::Ask(Request::Continue { pid: 100 })));
    assert!(!st.jobs[0].stopped);
    let step = finish(&["fg"], Reply::Foreground(FgOutcome::Exited(4)), &mut st);
    assert_eq!(done(&step), 4);
    assert_eq!(st.jobs.len(), 1);
    let step = builtin(&["fg", "%7"], &mut st);
    assert_eq!((done(&step), err(&step.lines)), (1, "fg: no such job\n".to_string()));
    let step = builtin(&["bg", "%7"], &mut st);
    assert_eq!((done(&step), err(&step.lines)), (1, "bg: no such job\n".to_string()));
}

#[test]
fn waiting_and_disowning() {
    let mut st = two_jobs();
    st.last_status = 9;
    match asked(builtin(&["wait"], &mut st)) {
        Request::Wait { pids } => assert_eq!(pids, vec![100, 200]),
        other => panic!("{:?}", other),
    }
    let step = builtin(&["wait", "%5"], &mut st);
    assert_eq!((done(&step), err(&step.lines)), (127, "wait: %5: no such job\n".to_string()));
    let step = finish(&["wait", "%2", "7"], Reply::Statuses(vec![Some(3), None]), &mut st);
    assert_eq!(done(&step), 3);
    assert_eq!(st.jobs.len(), 1);
    let step = finish(&["wait", "8"], Reply::Statuses(vec![None]), &mut st);
    assert_eq!(done(&step), 9);
    assert_eq!(done(&builtin(&["disown", "-h", "%9", "100"], &mut st)), 0);
    assert_eq!(st.jobs.len(), 0);
    let mut st = two_jobs();
    builtin(&["disown"], &mut st);
    assert_eq!(st.jobs.len(), 1);
    assert_eq!(st.jobs[0].pid, 100);
}

#[test]
fn signals() {
    assert_eq!(signal_from_name("HUP"), Some(Signal::Hup));
    assert_eq!(signal_from_name("SIGint"), Some(Signal::Int));
    assert_eq!(signal_from_name("SIGSIGkill"), Some(Signal::Kill));
    assert_eq!(signal_from_name("usr2"), Some(Signal::Usr2));
    assert_eq!(signal_from_name("9"), Some(Signal::Number(9)));
    assert_eq!(signal_from_name("sigint"), None);
    assert_eq!(signal_from_name("nope"), None);

    let st = two_jobs();
    let ask = |args: &[&str]| match asked(builtin(args, &mut two_jobs())) {
        Request::Kill { signal, targets } => (signal, targets),
        other => panic!("{:?}", other),
    };
    assert_eq!(
        ask(&["kill", "%1", "55", "x"]),
        (
            Signal::Term,
            vec![
                ("%1".to_string(), Some(100)),
                ("55".to_string(), Some(55)),
                ("x".to_string(), None)
            ]
        )
    );
    assert_eq!(ask(&["kill", "-9", "55"]).0, Signal::Number(9));
    assert_eq!(ask(&["kill", "-s", "stop", "55"]).0, Signal::Stop);
    assert_eq!(ask(&["kill", "-", "55"]), (Signal::Term, vec![("55".to_string(), Some(55))]));
    assert_eq!(ask(&["kill", "-s"]), (Signal::Term, vec![]));
    assert_eq!(resolve_pid(&st, "%-"), Some(100));

    let mut st = two_jobs();
    let step = builtin(&["kill"], &mut st);
    assert_eq!(
        (done(&step), err(&step.lines)),
        (2, "kill: usage: kill [-s sig | -sig] pid ...\n".to_string())
    );
    let step = finish(
        &["kill", "%1", "x", "55"],
        Reply::Delivered(vec![true, true, false]),
        &mut st,
    );
    assert_eq!(done(&step), 1);
    assert_eq!(
        err(&step.lines),
        "kill: x: no such process or job\nkill: 55: no such process or job\n"
    );
    let step = finish(&["kill", "%1"], Reply::Delivered(vec![true]), &mut st);
    assert_eq!(done(&step), 0);
}

#[test]
fn reading_lines() {
    let mut st = ShellState::new();
    let bytes = |s: &str| Reply::Read(ReadOutcome::Bytes(s.as_bytes().to_vec()));
    assert_eq!(done(&finish(&["read", "a", "b"], bytes("x y  z\r"), &mut st)), 0);
    assert_eq!(st.vars.get("a"), Some(&"x".to_string()));
    assert_eq!(st.vars.get("b"), Some(&"y  z".to_string()));
    finish(&["read"], bytes("a\\ b\\\\"), &mut st);
    assert_eq!(st.vars.get("REPLY"), Some(&"a b\\".to_string()));
    finish(&["read", "-r", "-q", "v"], bytes("a\\b"), &mut st);
    assert_eq!(st.vars.get("v"), Some(&"a\\b".to_string()));
    finish(&["read", "v"], Reply::Read(ReadOutcome::Bytes(vec![0xe9])), &mut st);
    assert_eq!(st.vars.get("v"), Some(&"é".to_string()));
    let end = finish(&["read", "v"], Reply::Read(ReadOutcome::End), &mut st);
    assert_eq!(done(&end), 1);
    assert_eq!(st.vars.get("v"), Some(&"é".to_string()));
    let failed = Reply::Read(ReadOutcome::Failed("bad".to_string()));
    let step = finish(&["read", "v"], failed, &mut st);
    assert_eq!((done(&step), err(&step.lines)), (1, "read: bad\n".to_string()));
}

#[test]
fn finished_jobs_are_announced() {
    let mut st = two_jobs();
    st.add_job("make".to_string(), 300);
    st.add_job("long".to_string(), 400);
    assert_eq!(reapable_pids(&st), vec![100, 300, 400]);
    let lines = reap_finished_jobs(&mut st, &[Some(0), Some(2), None], true);
    assert_eq!(err(&lines), "[1]  Done  sleep 5\n[3]  Exit 2  make\n");
    assert_eq!(st.jobs.len(), 2);
    assert_eq!(st.jobs[0].pid, 200);
    assert_eq!(st.jobs[1].pid, 400);
    let lines = reap_finished_jobs(&mut st, &[Some(0)], false);
    assert!(lines.is_empty());
    assert_eq!(st.jobs.len(), 1);
}

#[test]
fn job_ids_are_never_given_twice() {
    let mut st = two_jobs();
    builtin(&["disown", "%2"], &mut st);
    assert_eq!(st.add_job("x".to_string(), 5), 3);
    assert_eq!(resolve_job(&st, Some("%3")), Some(1));
    assert_eq!(resolve_job(&st, Some("%2")), None);
}

#[test]
fn negation_keeps_a_usage_error() {
    let mut lines = Vec::new();
    assert_eq!(builtin_test(&texts(&["test", "!", "-q", "x"]), None, &mut lines), 2);
    assert_eq!(err(&lines), "test: unary operator expected\n");
    assert_eq!(run(&["!", "!", "a", "-eq", "1"]), 2);
    assert_eq!(run(&["!", "!", "x"]), 0);
}

#[test]
fn a_number_beyond_all_process_ids_names_no_job() {
    let mut st = ShellState::new();
    st.add_job("a".to_string(), 100);
    assert_eq!(resolve_job(&st, Some("100")), Some(0));
    assert_eq!(resolve_job(&st, Some("4294967396")), None);
    assert_eq!(resolve_job(&st, Some("%4294967396")), None);
}

#[test]
fn the_last_variable_gets_the_rest_as_it_stands() {
    let mut vars = Vars::new();
    assign_read_fields("a  b   c", &texts(&["x", "y"]), &mut vars);
    assert_eq!(vars.get("x"), Some(&"a".to_string()));
    assert_eq!(vars.get("y"), Some(&"b   c".to_string()));
    assign_read_fields("  a  b \t", &texts(&["x"]), &mut vars);
    assert_eq!(vars.get("x"), Some(&"a  b".to_string()));
    assign_read_fields("a", &texts(&["x", "y", "z"]), &mut vars);
    assert_eq!(vars.get("y"), Some(&String::new()));
    assert_eq!(vars.get("z"), Some(&String::new()));
}

/// Runs `read` on an input; its status, and what it leaves unread.
fn read_from(args: &[&str], input: &[u8], st: &mut ShellState) -> (i32, Vec<u8>) {
    let mut left = input.to_vec();
    let mut bytes = Vec::new();
    let outcome = loop {
        let got = if left.is_empty() {
            None
        } else {
            Some(left.remove(0))
        };
        match read_step(bytes, Ok(got)) {
            ReadStep::Finished(outcome) => break outcome,
            ReadStep::More(more) => bytes = more,
        }
    };
    (done(&finish(args, Reply::Read(outcome), st)), left)
}

#[test]
fn read_takes_one_line() {
    let mut st = ShellState::new();
    assert_eq!(read_from(&["read", "x"], b"", &mut st), (1, vec![]));
    assert_eq!(st.vars.get("x"), None);
    assert_eq!(
        read_from(&["read", "x", "y"], b"a b c\nrest\n", &mut st),
        (0, b"rest\n".to_vec())
    );
    assert_eq!(st.vars.get("x"), Some(&"a".to_string()));
    assert_eq!(st.vars.get("y"), Some(&"b c".to_string()));
    assert_eq!(read_from(&["read"], b"hi\n", &mut st), (0, vec![]));
    assert_eq!(st.vars.get("REPLY"), Some(&"hi".to_string()));
    assert_eq!(read_from(&["read", "x"], b"\nz", &mut st), (0, b"z".to_vec()));
    assert_eq!(st.vars.get("x"), Some(&String::new()));
    assert_eq!(read_from(&["read", "x"], b"end", &mut st), (0, vec![]));
    assert_eq!(st.vars.get("x"), Some(&"end".to_string()));
    match read_step(b"ab".to_vec(), Err("bad".to_string())) {
        ReadStep::Finished(ReadOutcome::Failed(e)) => assert_eq!(e, "bad"),
        other => panic!("{:?}", other),
    }
}

#[test]
fn signals_have_their_numbers() {
    for (signal, number) in [
        (Signal::Hup, libc::SIGHUP),
        (Signal::Int, libc::SIGINT),
        (Signal::Quit, libc::SIGQUIT),
        (Signal::Kill, libc::SIGKILL),
        (Signal::Term, libc::SIGTERM),
        (Signal::Usr1, libc::SIGUSR1),
        (Signal::Usr2, libc::SIGUSR2),
        (Signal::Cont, libc::SIGCONT),
        (Signal::Stop, libc::SIGSTOP),
        (Signal::Tstp, libc::SIGTSTP),
        (Signal::Ttin, libc::SIGTTIN),
        (Signal::Ttou, libc::SIGTTOU),
        (Signal::Chld, libc::SIGCHLD),
        (Signal::Pipe, libc::SIGPIPE),
        (Signal::Number(42), 42),
    ] {
        assert_eq!(signal_number(signal), number);
    }
}
