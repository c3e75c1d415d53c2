//! Completion, prompt, history and the reading of lines.

use rsh::builtins::ShellState;
use rsh::completion::{
    command_candidates, completes_path, is_executable, path_candidates, resolve_dir, split_path,
    word_start, DirEntry,
};
use rsh::session::{build_prompt, history_file_path, read_input, shorten_home, Input};

fn entry(name: &str, is_dir: bool, mode: Option<u32>) -> DirEntry {
    DirEntry {
        name: name.to_string(),
        is_dir,
        mode,
    }
}

#[test]
fn test_word_start() {
    assert_eq!(word_start("echo hola", 9), 5);
    assert_eq!(word_start("echo hola", 5), 5);
    assert_eq!(word_start("cd /us", 6), 3);
    assert_eq!(word_start("ls | gre", 8), 5);
    assert_eq!(word_start("single", 6), 0);
}

#[test]
fn test_command_candidates() {
    let c = command_candidates("ec", &[]);
    assert!(c.iter().any(|x| x == "echo"));
    let c2 = command_candidates("whi", &[]);
    assert!(c2.iter().any(|x| x == "which"));
}

#[test]
fn test_path_candidates_slash() {
    let c = path_candidates("/usr/", &[entry("bin", true, Some(0o755))]);
    assert!(c.iter().any(|p| p == "/usr/bin/"));
}

#[test]
fn test_path_candidates_relative() {
    let entries = [
        entry("Cargo.toml", false, Some(0o644)),
        entry("src", true, Some(0o755)),
    ];
    let c = path_candidates("./C", &entries);
    assert!(c.iter().any(|p| p.starts_with("./Cargo")));
    assert_eq!(c.len(), 1);
}

#[test]
fn words_begin_behind_separators_of_any_width() {
    assert_eq!(word_start("ñandú x", 8), 8);
    assert_eq!(word_start("a\u{3000}b", 5), 4);
    assert_eq!(word_start("a;b&c(d", 7), 6);
    assert_eq!(word_start("abc def", 2), 0);
}

#[test]
fn programs_are_offered_behind_the_words_of_the_shell() {
    let entries = [
        entry("wc", false, Some(0o755)),
        entry("who", false, Some(0o755)),
        entry("whom", false, Some(0o644)),
        entry("whose", false, None),
    ];
    assert_eq!(
        command_candidates("wh", &entries),
        vec!["which", "while", "who"]
    );
    assert!(is_executable(&entries[0]));
    assert!(!is_executable(&entries[2]));
}

#[test]
fn paths_and_commands_are_told_apart() {
    for prefix in ["/", ".x", "~", "a/b"] {
        assert!(completes_path(prefix), "{}", prefix);
    }
    assert!(!completes_path("ab"));
    assert!(!completes_path(""));
    assert_eq!(split_path("a/b/c"), ("a/b/".to_string(), "c".to_string()));
    assert_eq!(split_path("abc"), ("".to_string(), "abc".to_string()));
}

#[test]
fn directories_to_list() {
    assert_eq!(resolve_dir("", Some("/h")), ".");
    assert_eq!(resolve_dir("~/a/", Some("/h")), "/h/a/");
    assert_eq!(resolve_dir("~/a/", None), "~/a/");
    assert_eq!(resolve_dir("/etc/", Some("/h")), "/etc/");
}

#[test]
fn prompts() {
    let mut st = ShellState::new();
    assert_eq!(build_prompt(&st, Some("/home/u/x")), "rsh:/home/u/x $ ");
    st.vars.export("HOME".to_string(), "/home/u".to_string());
    assert_eq!(build_prompt(&st, Some("/home/u/x")), "rsh:~/x $ ");
    st.last_status = 1;
    assert_eq!(build_prompt(&st, Some("/home/u")), "rsh:~ ✗ ");
    assert_eq!(build_prompt(&st, None), "rsh:? ✗ ");
    assert_eq!(shorten_home("/home/user", Some("/home/u")), "/home/user");
    assert_eq!(history_file_path(Some("/home/u")), "/home/u/.rsh_history");
    assert_eq!(history_file_path(None), ".rsh_history");
}

#[test]
fn lines_are_blank_programs_or_malformed() {
    assert!(matches!(read_input("  \t "), Input::Blank));
    match read_input("  echo hi ") {
        Input::Program { entry, jobs } => {
            assert_eq!(entry, "echo hi");
            assert_eq!(jobs.len(), 1);
        }
        other => panic!("{:?}", other),
    }
    match read_input("echo 'a") {
        Input::Malformed { entry, message } => {
            assert_eq!(entry, "echo 'a");
            assert_eq!(message, "rsh: lexical error: unclosed single quote");
        }
        other => panic!("{:?}", other),
    }
    match read_input("if x") {
        Input::Malformed { message, .. } => {
            assert_eq!(message, "rsh: syntax error: expected 'then', found None")
        }
        other => panic!("{:?}", other),
    }
}
