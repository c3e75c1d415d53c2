//! What stands around the commands of an interactive session: the prompt, the
//! history file, and the reading of a line.

use crate::completion::starts_with;
use crate::parser;
use crate::parser::parse;
use crate::report::{concat, concat3};
use crate::state;
use crate::state::ShellState;
use crate::syntax;
use crate::syntax::Job;
use crate::table;
use crate::text;
use crate::text::{slice_text, to_chars, trim};
use crate::tokenizer;
use crate::tokenizer::tokenize;
use vstd::prelude::*;

verus! {

/// A path with the home directory written as `~`.
pub open spec fn shortened(path: Seq<char>, home: Option<Seq<char>>) -> Seq<char> {
    match home {
        Some(h) => if text::begins_with(path, h) {
            let rest = path.skip(h.len() as int);
            if rest.len() == 0 {
                "~"@
            } else if rest[0] == '/' {
                "~"@ + rest
            } else {
                path
            }
        } else {
            path
        },
        None => path,
    }
}

/// Writes the home directory of a path as `~`.
pub fn shorten_home(path: &str, home: Option<&str>) -> (r: String)
    ensures
        r@ == shortened(
            path@,
            match home {
                Some(h) => Some(h@),
                None => None,
            },
        ),
{
    match home {
        Some(h) => {
            if starts_with(path, h) {
                let chars = to_chars(path);
                let from: usize = to_chars(h).len();
                let rest = slice_text(&chars, from, chars.len());
                assert(rest@ =~= path@.skip(from as int));
                if from == chars.len() {
                    return "~".to_owned();
                }
                if chars[from] == '/' {
                    return concat("~", rest.as_str());
                }
            }
        },
        None => {},
    }
    path.to_owned()
}

/// The prompt: the working directory, `?` if it is not known, and a marker that
/// tells whether the last command succeeded.
pub open spec fn prompt_text(st: state::StateModel, cwd: Option<Seq<char>>) -> Seq<char> {
    "rsh:"@ + match cwd {
        Some(dir) => shortened(dir, table::lookup(st.vars.env, "HOME"@)),
        None => "?"@,
    } + " "@ + if st.last_status == 0 {
        "$"@
    } else {
        "✗"@
    } + " "@
}

/// Builds the prompt.
pub fn build_prompt(state: &ShellState, cwd: Option<&str>) -> (r: String)
    ensures
        r@ == prompt_text(
            state.model(),
            match cwd {
                Some(dir) => Some(dir@),
                None => None,
            },
        ),
{
    let dir = match cwd {
        Some(dir) => match state.vars.env.get("HOME") {
            Some(home) => shorten_home(dir, Some(home.as_str())),
            None => shorten_home(dir, None),
        },
        None => "?".to_owned(),
    };
    let marker = if state.last_status == 0 {
        "$"
    } else {
        "✗"
    };
    let begin = concat3("rsh:", dir.as_str(), " ");
    concat3(begin.as_str(), marker, " ")
}

/// Where the history is kept.
pub open spec fn history_path(home: Option<Seq<char>>) -> Seq<char> {
    match home {
        Some(h) => h + "/.rsh_history"@,
        None => ".rsh_history"@,
    }
}

/// Where the history is kept: in the home directory, else in the working
/// directory.
pub fn history_file_path(home: Option<&str>) -> (r: String)
    ensures
        r@ == history_path(
            match home {
                Some(h) => Some(h@),
                None => None,
            },
        ),
        r@ == match home {
            Some(h) => h@ + "/.rsh_history"@,
            None => ".rsh_history"@,
        },
{
    match home {
        Some(h) => concat(h, "/.rsh_history"),
        None => ".rsh_history".to_owned(),
    }
}

/// What a line of input is.
#[derive(Debug)]
pub enum Input {
    /// Nothing but whitespace.
    Blank,
    /// Jobs to run; the line goes into the history.
    Program { entry: String, jobs: Vec<Job> },
    /// Not a program; the line goes into the history all the same.
    Malformed { entry: String, message: String },
}

/// Model of a line of input.
#[verifier::ext_equal]
pub enum InputModel {
    Blank,
    Program { entry: Seq<char>, jobs: Seq<syntax::JobModel> },
    Malformed { entry: Seq<char>, message: Seq<char> },
}

impl Input {
    pub open spec fn model(self) -> InputModel {
        match self {
            Input::Blank => InputModel::Blank,
            Input::Program { entry, jobs } => InputModel::Program {
                entry: entry@,
                jobs: syntax::job_models(jobs@),
            },
            Input::Malformed { entry, message } => InputModel::Malformed {
                entry: entry@,
                message: message@,
            },
        }
    }
}

/// What a line of input is.
pub open spec fn input_of(line: Seq<char>) -> InputModel {
    let entry = text::trimmed(line);
    if entry.len() == 0 {
        InputModel::Blank
    } else {
        match tokenizer::tokens_of(entry) {
            Err(e) => InputModel::Malformed { entry, message: "rsh: lexical error: "@ + e },
            Ok(ts) => match parser::jobs_of(ts) {
                Err(e) => InputModel::Malformed { entry, message: "rsh: syntax error: "@ + e },
                Ok(jobs) => InputModel::Program { entry, jobs },
            },
        }
    }
}

/// Reads a line of input.
pub fn read_input(line: &str) -> (r: Input)
    ensures
        r.model() == input_of(line@),
{
    let entry = trim(line);
    if entry.as_str().is_empty() {
        return Input::Blank;
    }
    match tokenize(entry.as_str()) {
        Err(e) => {
            let message = concat("rsh: lexical error: ", e.as_str());
            Input::Malformed { entry, message }
        },
        Ok(tokens) => match parse(tokens) {
            Err(e) => {
                let message = concat("rsh: syntax error: ", e.as_str());
                Input::Malformed { entry, message }
            },
            Ok(jobs) => Input::Program { entry, jobs },
        },
    }
}

} // verus!
