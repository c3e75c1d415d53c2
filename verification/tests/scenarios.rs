//! Whole programs, run against a small world made of values.

use rsh::builtins::{JobRecord, ShellState};
use rsh::executor::{resume, run_jobs, Progress};
use rsh::jobctl::FgOutcome;
use rsh::machine::{Action, Answer, Control, Machine, Ran};
use rsh::outside::{Reply, Request};
use rsh::parser::Redirect;
use rsh::pattern::pattern_matches;
use rsh::readcmd::{read_step, ReadStep};
use rsh::redirect::{chosen_redirect, purpose, redirect_failures, OpenMode, Stream};
use rsh::report::Line;
use rsh::session::{read_input, Input};
use rsh::testcmd::FileFacts;
use std::collections::BTreeMap;

/// Where standard output goes.
enum Sink {
    Buffer(String),
    File(String),
}

struct World {
    files: BTreeMap<String, String>,
    dir: String,
    sinks: Vec<Sink>,
    errors: String,
    input: Vec<u8>,
    dirs: Vec<String>,
    pipe: String,
    codes: BTreeMap<i32, Option<i32>>,
    next_pid: i32,
    asked: Vec<String>,
    started: Vec<(String, bool)>,
}

impl World {
    fn new() -> World {
        World {
            files: BTreeMap::new(),
            dir: "/work".to_string(),
            sinks: vec![Sink::Buffer(String::new())],
            errors: String::new(),
            input: Vec::new(),
            dirs: Vec::new(),
            pipe: String::new(),
            codes: BTreeMap::new(),
            next_pid: 1000,
            asked: Vec::new(),
            started: Vec::new(),
        }
    }

    fn write(&mut self, text: &str) {
        match self.sinks.last_mut().expect("an output") {
            Sink::Buffer(b) => b.push_str(text),
            Sink::File(name) => {
                let name = name.clone();
                self.files.entry(name).or_default().push_str(text);
            }
        }
    }

    fn show(&mut self, lines: &[Line]) {
        for line in lines {
            if line.error {
                self.errors.push_str(&line.text);
            } else {
                self.write(&line.text);
            }
        }
    }

    fn output(&self) -> String {
        match &self.sinks[0] {
            Sink::Buffer(b) => b.clone(),
            Sink::File(_) => unreachable!(),
        }
    }

    fn open(&mut self, redirect: &Redirect) -> bool {
        if redirect.target.starts_with("/no/") {
            return false;
        }
        match purpose(redirect.kind) {
            Some((_, OpenMode::Read)) => self.files.contains_key(&redirect.target),
            Some((_, OpenMode::Create)) => {
                self.files.insert(redirect.target.clone(), String::new());
                true
            }
            Some((_, OpenMode::Append)) => {
                self.files.entry(redirect.target.clone()).or_default();
                true
            }
            None => false,
        }
    }

    /// What a program writes, and how it ends.
    fn program(
        &self,
        words: &[String],
        envs: &[(String, String)],
        state: &ShellState,
        input: &str,
    ) -> Option<(String, i32)> {
        match words[0].as_str() {
            "true" => Some((String::new(), 0)),
            "false" => Some((String::new(), 1)),
            "cat" => Some((input.to_string(), 0)),
            "upper" => Some((input.to_uppercase(), 0)),
            "count" => Some((format!("{}\n", input.len()), 0)),
            "status" => Some((String::new(), words[1].parse().unwrap_or(1))),
            "printenv" => {
                let found = envs
                    .iter()
                    .rev()
                    .find(|(n, _)| *n == words[1])
                    .map(|(_, v)| v.clone())
                    .or_else(|| state.vars.env.get(&words[1]).cloned());
                match found {
                    Some(v) => Some((format!("{}\n", v), 0)),
                    None => Some((String::new(), 1)),
                }
            }
            _ => None,
        }
    }

    /// Runs a program with its redirections; its output goes where they say.
    fn execute(
        &mut self,
        words: &[String],
        envs: &[(String, String)],
        redirects: &[Redirect],
        state: &ShellState,
        input: &str,
    ) -> Option<(String, i32)> {
        let opened: Vec<bool> = redirects.iter().map(|r| self.open(r)).collect();
        let failures = redirect_failures(redirects, &opened);
        self.show(&failures);
        let text = match chosen_redirect(redirects, &opened, Stream::Input) {
            Some(k) => self.files[&redirects[k].target].clone(),
            None => input.to_string(),
        };
        let (out, code) = self.program(words, envs, state, &text)?;
        match chosen_redirect(redirects, &opened, Stream::Output) {
            Some(k) => {
                let target = redirects[k].target.clone();
                self.files.entry(target).or_default().push_str(&out);
                Some((String::new(), code))
            }
            None => Some((out, code)),
        }
    }

    fn reply(&mut self, request: &Request) -> Reply {
        match request {
            Request::ChangeDir { target } => {
                let before = Some(self.dir.clone());
                if target.starts_with("/no") {
                    return Reply::Moved {
                        before,
                        outcome: Err("No such file or directory".to_string()),
                    };
                }
                self.dir = target.clone();
                Reply::Moved {
                    before,
                    outcome: Ok(Some(target.clone())),
                }
            }
            Request::CurrentDir => Reply::Dir(Ok(self.dir.clone())),
            Request::FirstFile { candidates, .. } => {
                Reply::Found(candidates.iter().position(|c| self.files.contains_key(c)))
            }
            Request::LookAt { path, .. } => {
                Reply::Facts(self.files.get(path).map(|text| FileFacts {
                    is_file: true,
                    is_dir: false,
                    len: text.len() as u64,
                    mode: 0o100644,
                }))
            }
            Request::Reap { pids, .. } => Reply::Statuses(
                pids.iter()
                    .map(|p| self.codes.remove(p).flatten())
                    .collect(),
            ),
            Request::Wait { pids } => Reply::Statuses(
                pids.iter()
                    .map(|p| self.codes.remove(p).flatten())
                    .collect(),
            ),
            Request::Foreground { .. } => Reply::Foreground(FgOutcome::Exited(6)),
            Request::Continue { .. } => Reply::Resumed,
            Request::Kill { targets, .. } => {
                Reply::Delivered(targets.iter().map(|t| t.1.is_some()).collect())
            }
            Request::ReadLine { .. } => {
                let mut bytes = Vec::new();
                loop {
                    let got = if self.input.is_empty() {
                        None
                    } else {
                        Some(self.input.remove(0))
                    };
                    match read_step(bytes, Ok(got)) {
                        ReadStep::Finished(outcome) => return Reply::Read(outcome),
                        ReadStep::More(more) => bytes = more,
                    }
                }
            }
        }
    }

    fn answer(&mut self, action: &Action, state: &ShellState) -> Answer {
        match action {
            Action::Builtin(request) => Answer::Builtin(self.reply(request)),
            Action::Glob { pattern, .. } => {
                self.asked.push(pattern.clone());
                Answer::Paths(
                    self.files
                        .keys()
                        .filter(|f| pattern_matches(pattern, f))
                        .cloned()
                        .collect(),
                )
            }
            Action::BeginCapture { .. } => {
                self.sinks.push(Sink::Buffer(String::new()));
                self.dirs.push(self.dir.clone());
                Answer::Began(Ok(()))
            }
            Action::EndCapture => {
                self.dir = self.dirs.pop().expect("a directory");
                match self.sinks.pop() {
                    Some(Sink::Buffer(b)) => Answer::Captured(Ok(b)),
                    _ => panic!("no capture"),
                }
            }
            Action::OpenOutput { redirect, .. } => {
                if self.open(redirect) {
                    self.sinks.push(Sink::File(redirect.target.clone()));
                    Answer::Opened(Ok(()))
                } else {
                    Answer::Opened(Err("Permission denied".to_string()))
                }
            }
            Action::RestoreOutput { .. } => {
                self.sinks.pop();
                Answer::Restored
            }
            Action::RunForeground {
                words,
                envs,
                redirects,
            } => {
                if words[0] == "editor" {
                    return Answer::Ran(Ran::Stopped(77));
                }
                match self.execute(words, envs, redirects, state, "") {
                    Some((out, code)) => {
                        self.write(&out);
                        Answer::Ran(Ran::Exited(code))
                    }
                    None => Answer::Ran(Ran::Failed("not found".to_string())),
                }
            }
            Action::Spawn {
                words,
                envs,
                redirects,
                inner,
                last,
                background,
            } => {
                self.started.push((words[0].clone(), *background));
                let input = std::mem::take(&mut self.pipe);
                let (out, code) = if *inner {
                    let mut own = state.copy();
                    self.input = input.clone().into_bytes();
                    self.sinks.push(Sink::Buffer(String::new()));
                    let exit = drive(Machine::for_stage(words.clone()), &mut own, self);
                    match self.sinks.pop() {
                        Some(Sink::Buffer(b)) => (b, exit.unwrap_or(own.last_status)),
                        _ => panic!("no capture"),
                    }
                } else {
                    match self.execute(words, envs, redirects, state, &input) {
                        Some(r) => r,
                        None => return Answer::Spawned(Err("not found".to_string())),
                    }
                };
                if *last {
                    self.write(&out);
                } else {
                    self.pipe = out;
                }
                self.next_pid += 1;
                self.codes.insert(self.next_pid, Some(code));
                Answer::Spawned(Ok(self.next_pid))
            }
            Action::WaitStages { pids } => Answer::Codes(
                pids.iter()
                    .map(|p| self.codes.remove(p).flatten())
                    .collect(),
            ),
        }
    }
}

fn drive(machine: Machine, state: &mut ShellState, world: &mut World) -> Option<i32> {
    carry_on(resume(machine, state), state, world)
}

fn carry_on(progress: Progress, state: &mut ShellState, world: &mut World) -> Option<i32> {
    let mut progress = progress;
    loop {
        match progress {
            Progress::Finished(exit, lines) => {
                world.show(&lines);
                return exit;
            }
            Progress::Going(mut machine) => {
                let lines = std::mem::take(&mut machine.lines);
                world.show(&lines);
                let answer = match &machine.control {
                    Control::Ask(action) => Some(world.answer(action, state)),
                    _ => None,
                };
                if let Some(answer) = answer {
                    machine.answer(state, answer);
                }
                progress = resume(machine, state);
            }
        }
    }
}

fn run_in(program: &str, state: &mut ShellState, world: &mut World) -> Option<i32> {
    match read_input(program) {
        Input::Program { jobs, .. } => carry_on(run_jobs(&jobs, state), state, world),
        other => panic!("no program: {:?}", other),
    }
}

/// What a program writes, its diagnostics and the last status.
fn run(program: &str) -> (String, String, i32) {
    let mut state = ShellState::new();
    let mut world = World::new();
    run_in(program, &mut state, &mut world);
    (world.output(), world.errors, state.last_status)
}

fn out(program: &str) -> String {
    run(program).0
}

#[test]
fn variables_and_quotes() {
    assert_eq!(out("GREET=hello\necho \"greeting=$GREET\""), "greeting=hello\n");
    assert_eq!(out("X='a  b'; echo $X; echo 'x  $X'"), "a b\nx  $X\n");
    assert_eq!(out("X='a b'; Y=$X; echo \"${#Y}\""), "3\n");
    assert_eq!(out("echo a\\ \\ b '*' \"~\" \\$X"), "a  b * ~ $X\n");
    assert_eq!(out("echo ${U:-one} ${U:=two} $U ${U:+three} ${#U}"), "one two two three 3\n");
    assert_eq!(run("echo ${U:?missing}").1, "rsh: U: missing\n");
    assert_eq!(
        run("echo ${U:?}").1,
        "rsh: U: parameter null or not set\n"
    );
    assert_eq!(out("X=1; unset X; echo \"<$X>\" # gone"), "<>\n");
}

#[test]
fn statuses() {
    assert_eq!(out("false\necho \"exit code was $?\""), "exit code was 1\n");
    assert_eq!(out("status 3; echo $?; echo $?"), "3\n0\n");
    assert_eq!(run("nothing-there").1, "rsh: nothing-there: not found\n");
    assert_eq!(run("nothing-there").2, 127);
    assert_eq!(run("true | status 4").2, 4);
    assert_eq!(run("false | true").2, 0);
    assert_eq!(run("nothing-there | true").2, 127);
}

#[test]
fn connectors() {
    assert_eq!(out("true && echo a || echo b; echo c"), "a\nc\n");
    assert_eq!(out("false && echo a || echo b"), "b\n");
    assert_eq!(out("false || false && echo a; echo $?"), "1\n");
    assert_eq!(out("{ false; true; } && echo group"), "group\n");
}

#[test]
fn conditions_and_loops() {
    assert_eq!(
        out("if [ -z \"$FOO\" ]; then\n  echo \"FOO is not set\"\nfi"),
        "FOO is not set\n"
    );
    assert_eq!(
        out("if false; then echo a; elif true; then echo b; else echo c; fi"),
        "b\n"
    );
    assert_eq!(out("if false; then echo a; fi; echo $?"), "0\n");
    assert_eq!(out("for x in a 'b c' d; do echo \"<\"$x\">\"; done"), "<a>\n<b c>\n<d>\n");
    assert_eq!(
        out("n=0; while [ $n -lt 3 ]; do n=$((n+1)); echo $n; done"),
        "1\n2\n3\n"
    );
    assert_eq!(
        out("n=3; until [ $n -eq 0 ]; do n=$(( $n - 1 )); done; echo $n $?"),
        "0 0\n"
    );
    assert_eq!(out("for x in; do echo $x; done; echo $?"), "0\n");
}

#[test]
fn cases() {
    let program = "case $x in a|b) echo ab ;; [0-9]*) echo number ;; *) echo other ;; esac";
    for (x, expected) in [("a", "ab\n"), ("b", "ab\n"), ("42", "number\n"), ("zz", "other\n")] {
        assert_eq!(out(&format!("x={}; {}", x, program)), expected);
    }
    assert_eq!(out("case abc in '*') echo star ;; a?c) echo q ;; esac"), "q\n");
    assert_eq!(out("case x in y) echo y ;; esac; echo $?"), "0\n");
}

#[test]
fn substitution() {
    assert_eq!(out("v=$(echo sub) ; echo \"v=$v\""), "v=sub\n");
    assert_eq!(out("echo `echo back`"), "back\n");
    assert_eq!(out("echo $(echo $(echo deep) here)"), "deep here\n");
    assert_eq!(out("v=$(echo 'a  b'); echo ${#v}"), "4\n");
    assert_eq!(out("X=1; v=$(X=2; export Y=3; echo $X); echo $v $X \"<$Y>\""), "2 1 <>\n");
    assert_eq!(out("echo $(exit 3; echo no) yes"), "yes\n");
    assert_eq!(out("f() { echo in; }; echo $(f)"), "in\n");
    let (output, errors, _) = run("echo a $(if) b");
    assert_eq!(output, "a b\n");
    assert_eq!(errors, "rsh: $(...): expected 'then', found None\n");
}

#[test]
fn functions_and_recursion() {
    let program = "fact() { if [ \"$1\" -le 1 ]; then echo 1;\n\
                   else r=$(fact $(($1 - 1))); echo $(($1 * r)); fi }\n\
                   echo \"fact 5 = $(fact 5)\"";
    assert_eq!(out(program), "fact 5 = 120\n");
    assert_eq!(
        out("f() { echo $0 $# $@ $2; }; f a 'b c'; echo $#"),
        "rsh 2 a b c b c\n0\n"
    );
    assert_eq!(out("g() { X=set; }; g; echo $X"), "set\n");
    assert_eq!(out("h() echo one; h; h() echo two; h"), "one\ntwo\n");
    assert_eq!(out("f() { false; }; f || echo failed"), "failed\n");
}

#[test]
fn redirections() {
    let mut state = ShellState::new();
    let mut world = World::new();
    run_in("echo one > f; echo two >> f; cat < f", &mut state, &mut world);
    assert_eq!(world.files["f"], "one\ntwo\n");
    assert_eq!(world.output(), "one\ntwo\n");
    run_in("cat < f > g; upper < g >> g", &mut state, &mut world);
    assert_eq!(world.files["g"], "one\ntwo\nONE\nTWO\n");
    run_in("echo q > 'a *'; cat < \"a *\" > b\\ c", &mut state, &mut world);
    assert_eq!(world.files["a *"], "q\n");
    assert_eq!(world.files["b c"], "q\n");
    run_in("p() { echo in; }; p > h; echo after", &mut state, &mut world);
    assert_eq!(world.files["h"], "in\n");
    assert!(world.output().ends_with("after\n"));
    run_in("echo x > /no/f", &mut state, &mut world);
    assert_eq!(state.last_status, 1);
    assert_eq!(world.errors, "rsh: /no/f: Permission denied\n");
    run_in("cat < missing", &mut state, &mut world);
    assert!(world.errors.ends_with("rsh: missing: no such file\n"));
    assert_eq!(state.last_status, 0);
    let exit = run_in("exit 9 > h", &mut state, &mut world);
    assert_eq!(exit, Some(9));
    assert_eq!(world.sinks.len(), 1);
}

#[test]
fn pathnames() {
    let mut state = ShellState::new();
    let mut world = World::new();
    for f in ["a.rs", "b.rs", "c.txt"] {
        world.files.insert(f.to_string(), String::new());
    }
    run_in(
        "for f in *.rs; do\n  echo \"file: $f\"\ndone",
        &mut state,
        &mut world,
    );
    run_in("echo '*.rs' *.md \"?\" c*", &mut state, &mut world);
    assert_eq!(
        world.output(),
        "file: a.rs\nfile: b.rs\n*.rs *.md ? c.txt\n"
    );
    assert_eq!(world.asked, vec!["*.rs", "*.md", "c*"]);
}

#[test]
fn pipelines() {
    assert_eq!(out("echo hi | upper"), "HI\n");
    assert_eq!(out("echo hi | count"), "3\n");
    assert_eq!(out("f() { echo a; echo b; }; f | upper | cat"), "A\nB\n");
    assert_eq!(out("echo 'x y' | read p q; echo \"<$p>\""), "<>\n");
    assert_eq!(out("export X=1 | cat; echo \"<$X>\""), "<>\n");
    assert_eq!(run("echo a | test b = c").2, 1);
    assert_eq!(out("A=1 printenv A; printenv A; echo $A"), "1\n1\n");
}

#[test]
fn reading_in_a_loop() {
    let mut state = ShellState::new();
    let mut world = World::new();
    world.input = b"one two\nthree".to_vec();
    run_in(
        "while read x y; do echo \"$y-$x\"; done",
        &mut state,
        &mut world,
    );
    assert_eq!(world.output(), "two-one\n-three\n");
}

#[test]
fn leaving_the_shell() {
    let mut state = ShellState::new();
    let mut world = World::new();
    let exit = run_in(
        "f() { for x in 1 2; do if true; then exit 5; fi; done; }; f; echo no",
        &mut state,
        &mut world,
    );
    assert_eq!(exit, Some(5));
    assert_eq!(world.output(), "");
    assert_eq!(run_in("echo on", &mut state, &mut world), None);
}

#[test]
fn background_and_stopped_jobs() {
    let mut state = ShellState::new();
    let mut world = World::new();
    run_in("true | status 3 & jobs", &mut state, &mut world);
    assert_eq!(
        world.output(),
        "[bg] pid 1002\n[ 1] Done     true | status 3\n"
    );
    assert!(state.jobs.is_empty());
    run_in("editor notes", &mut state, &mut world);
    assert_eq!(state.last_status, 0);
    assert_eq!(state.jobs.len(), 1);
    let job: &JobRecord = &state.jobs[0];
    assert_eq!((job.id, job.pid, job.stopped), (2, 77, true));
    assert_eq!(job.command, "editor notes");
    run_in("bg; fg; echo $?", &mut state, &mut world);
    assert!(world
        .output()
        .ends_with("[2] editor notes &\neditor notes\n6\n"));
    assert!(state.jobs.is_empty());
}

#[test]
fn directories_there_and_back() {
    assert_eq!(
        out("cd /a; cd /b; pwd; cd -; pwd; echo $OLDPWD"),
        "/b\n/a\n/b\n"
    );
    let (output, errors, status) = run("cd /no/where; pwd");
    assert_eq!((output.as_str(), status), ("/work\n", 0));
    assert_eq!(errors, "cd: /no/where: No such file or directory\n");
}

#[test]
fn aliases_in_commands() {
    assert_eq!(
        out("alias hi='echo hello'\nhi you; unalias hi; hi || echo gone"),
        "hello you\ngone\n"
    );
}

#[test]
fn tests_on_files_in_conditions() {
    let mut state = ShellState::new();
    let mut world = World::new();
    world.files.insert("f".to_string(), "x".to_string());
    run_in(
        "if [ -f f ] && test ! -d f; then echo file; fi; [ -e g ] || echo none",
        &mut state,
        &mut world,
    );
    assert_eq!(world.output(), "file\nnone\n");
}

#[test]
fn quoted_expansions_reach_commands_whole() {
    assert_eq!(out("V='a  b'; for x in \"$V\" $V; do echo \"<$x>\"; done"), "<a  b>\n<a>\n<b>\n");
    assert_eq!(out("for x in \"$(echo 'a  b')\"; do echo \"<$x>\"; done"), "<a  b>\n");
    assert_eq!(out("V='*'; case 'x' in \"$V\") echo no;; $V) echo yes;; esac"), "yes\n");
    assert_eq!(out("echo a # b\necho c"), "a\nc\n");
    assert_eq!(out("echo \"cost $(5\""), "cost $(5\n");
}

#[test]
fn a_substitution_leaves_the_directory_alone() {
    let mut state = ShellState::new();
    let mut world = World::new();
    run_in("echo $(cd /tmp; pwd); pwd", &mut state, &mut world);
    assert_eq!(world.output(), "/tmp\n/work\n");
}

#[test]
fn stages_know_whether_they_run_in_the_background() {
    let mut state = ShellState::new();
    let mut world = World::new();
    run_in("echo a | cat; echo b | upper &", &mut state, &mut world);
    let started: Vec<(&str, bool)> = world.started.iter().map(|s| (s.0.as_str(), s.1)).collect();
    assert_eq!(
        started,
        vec![("echo", false), ("cat", false), ("echo", true), ("upper", true)]
    );
}
