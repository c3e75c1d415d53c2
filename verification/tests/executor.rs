//! Running commands: assignments, aliases, and the machine's own decisions.

use rsh::builtins::ShellState;
use rsh::executor::{
    apply_assignments, resolve_alias, resume, run_jobs, split_assignments, Progress,
};
use rsh::machine::{Action, Answer, Control, Machine};
use rsh::parser::{Connector, Job, Pipeline, Redirect, SimpleCommand, Unit};
use rsh::pattern::pattern_matches;
use rsh::redirect::{chosen_redirect, output_redirect, purpose, redirect_failures, OpenMode, Stream};
use rsh::tokenizer::RedirectKind;

fn simple(unit: Unit) -> Job {
    Job {
        unit,
        connector: Connector::Sequence,
    }
}

fn pipeline_command(args: &[&str]) -> Pipeline {
    Pipeline {
        commands: vec![SimpleCommand {
            args: args.iter().map(|s| s.to_string()).collect(),
            redirects: vec![],
        }],
        background: false,
    }
}

/// The exit status that a run without questions ends with.
fn finished(progress: Progress) -> Option<i32> {
    match progress {
        Progress::Finished(exit, _) => exit,
        Progress::Going(machine) => panic!("not finished: {:?}", machine),
    }
}

#[test]
fn test_split_assignments() {
    let args = vec![
        "FOO=1".to_string(),
        "BAR=hello".to_string(),
        "echo".to_string(),
        "FOO=not_an_assignment_anymore".to_string(),
    ];
    let (assigns, words) = split_assignments(&args);
    assert_eq!(assigns.len(), 2);
    assert_eq!(assigns[0], ("FOO".to_string(), "1".to_string()));
    assert_eq!(assigns[1], ("BAR".to_string(), "hello".to_string()));
    assert_eq!(
        words,
        vec![
            "echo".to_string(),
            "FOO=not_an_assignment_anymore".to_string()
        ]
    );
}

#[test]
fn test_split_assignments_invalid_name_not_split() {
    // `1FOO=...` is not a valid name, so it stays a command word.
    let args = vec!["1FOO=x".to_string()];
    let (assigns, words) = split_assignments(&args);
    assert!(assigns.is_empty());
    assert_eq!(words, vec!["1FOO=x".to_string()]);
}

#[test]
fn test_assignment_only_command_sets_var() {
    let jobs = vec![simple(Unit::Pipeline(pipeline_command(&["FOO=hello"])))];
    let mut state = ShellState::new();
    assert_eq!(finished(run_jobs(&jobs, &mut state)), None);
    assert_eq!(state.vars.get("FOO"), Some(&"hello".to_string()));
}

#[test]
fn test_assignment_without_command_subst() {
    // Two bare assignments in a row must both be set.
    let jobs = vec![simple(Unit::Pipeline(pipeline_command(&[
        "G=A", "H=world",
    ])))];
    let mut state = ShellState::new();
    assert_eq!(finished(run_jobs(&jobs, &mut state)), None);
    assert_eq!(state.vars.get("G"), Some(&"A".to_string()));
    assert_eq!(state.vars.get("H"), Some(&"world".to_string()));
}

#[test]
fn assignments_do_not_export() {
    let mut state = ShellState::new();
    let assigns = vec![("A".to_string(), "1".to_string()), ("A".to_string(), "2".to_string())];
    apply_assignments(&assigns, &mut state.vars);
    assert_eq!(state.vars.get("A"), Some(&"2".to_string()));
    assert_eq!(state.vars.env.get("A"), None);
}

#[test]
fn aliases_replace_the_first_word() {
    let mut state = ShellState::new();
    state
        .aliases
        .insert("ll".to_string(), " ls  -l ".to_string());
    let cmd = SimpleCommand {
        args: vec!["ll".to_string(), "ll".to_string()],
        redirects: vec![Redirect {
            kind: RedirectKind::Out,
            target: "f".to_string(),
        }],
    };
    let r = resolve_alias(&cmd, &state);
    assert_eq!(r.args, vec!["ls", "-l", "ll"]);
    assert_eq!(r.redirects.len(), 1);
    state.aliases.remove("ll");
    assert_eq!(resolve_alias(&cmd, &state).args, vec!["ll", "ll"]);
}

#[test]
fn patterns_of_case() {
    assert!(pattern_matches("*", "anything"));
    assert!(pattern_matches("*", ""));
    assert!(pattern_matches("a?c", "abc"));
    assert!(pattern_matches("[a-c]x", "bx"));
    assert!(!pattern_matches("[a-c]x", "dx"));
    assert!(pattern_matches("[*]", "*"));
    assert!(!pattern_matches("[*]", "a"));
    assert!(pattern_matches("plain", "plain"));
    assert!(!pattern_matches("plain", "plainer"));
    assert!(!pattern_matches("[", "["));
}

fn redirect(kind: RedirectKind, target: &str) -> Redirect {
    Redirect {
        kind,
        target: target.to_string(),
    }
}

#[test]
fn the_last_redirection_that_opens_wins() {
    let rs = [
        redirect(RedirectKind::Out, "a"),
        redirect(RedirectKind::In, "b"),
        redirect(RedirectKind::Append, "c"),
        redirect(RedirectKind::ErrOut, "d"),
        redirect(RedirectKind::HereDoc, "EOF"),
    ];
    let all = [true; 5];
    assert_eq!(chosen_redirect(&rs, &all, Stream::Output), Some(2));
    assert_eq!(chosen_redirect(&rs, &all, Stream::Input), Some(1));
    assert_eq!(chosen_redirect(&rs, &all, Stream::Error), Some(3));
    let some = [true, false, false, false, false];
    assert_eq!(chosen_redirect(&rs, &some, Stream::Output), Some(0));
    assert_eq!(chosen_redirect(&rs, &some, Stream::Input), None);
    let lines = redirect_failures(&rs, &some);
    assert_eq!(lines.len(), 1);
    assert_eq!(lines[0].text, "rsh: b: no such file\n");
    assert!(lines[0].error);
    assert_eq!(output_redirect(&rs).expect("one").target, "a");
    assert!(output_redirect(&rs[1..2]).is_none());
    assert_eq!(
        purpose(RedirectKind::Append),
        Some((Stream::Output, OpenMode::Append))
    );
    assert_eq!(purpose(RedirectKind::HereDocStrip), None);
}

#[test]
fn an_answer_that_does_not_fit_changes_nothing() {
    let jobs = vec![simple(Unit::Pipeline(pipeline_command(&["prog"])))];
    let mut state = ShellState::new();
    match run_jobs(&jobs, &mut state) {
        Progress::Going(mut m) => {
            m.answer(&mut state, Answer::Restored);
            assert!(matches!(
                m.control,
                Control::Ask(Action::RunForeground { .. })
            ));
        }
        other => panic!("{:?}", other),
    }
}

#[test]
fn stages_run_their_words() {
    let words = vec!["echo".to_string(), "hi".to_string()];
    let mut state = ShellState::new();
    match resume(Machine::for_stage(words), &mut state) {
        Progress::Finished(exit, lines) => {
            assert_eq!(exit, None);
            assert_eq!(lines[0].text, "hi\n");
        }
        other => panic!("{:?}", other),
    }
    let words = vec!["test".to_string(), "".to_string()];
    assert_eq!(finished(resume(Machine::for_stage(words), &mut state)), None);
    assert_eq!(state.last_status, 1);
}
