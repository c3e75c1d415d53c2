//! What builtins ask of the world outside, what it answers, and what a builtin
//! comes to.

use crate::jobctl::FgOutcome;
use crate::report;
use crate::report::Line;
use crate::state;
use crate::testcmd::FileFacts;
use crate::text;
use vstd::prelude::*;

verus! {

/// A signal: one that has a name in the shell, or a number.
#[derive(Debug, Clone, Copy, PartialEq, Eq, Structural)]
pub enum Signal {
    Hup,
    Int,
    Quit,
    Kill,
    Term,
    Usr1,
    Usr2,
    Cont,
    Stop,
    Tstp,
    Ttin,
    Ttou,
    Chld,
    Pipe,
    Number(i32),
}

/// How `jobs` begins its lines.
#[derive(Debug, Clone, Copy, PartialEq, Eq, Structural)]
pub enum JobsStyle {
    /// The job id.
    Plain,
    /// The job id and the process id (`-l`).
    Long,
    /// The process id (`-p`).
    Pids,
}

/// A request to the world outside.
#[derive(Debug)]
pub enum Request {
    /// Change the working directory.
    ChangeDir { target: String },
    /// Name the working directory.
    CurrentDir,
    /// Find the first candidate that is a file; `name` is what is searched for.
    FirstFile { name: String, candidates: Vec<String> },
    /// Look at a path, for a test with these operands.
    LookAt { operands: Vec<String>, path: String },
    /// Collect those processes that have finished, without waiting.
    Reap { pids: Vec<i32>, style: JobsStyle },
    /// Resume a process in the foreground and wait until it exits or stops;
    /// `index` is its place in the job table.
    Foreground { index: usize, pid: i32 },
    /// Resume a stopped process.
    Continue { pid: i32 },
    /// Wait for processes, one after the other.
    Wait { pids: Vec<i32> },
    /// Send a signal to every target that has a process id.
    Kill { signal: Signal, targets: Vec<(String, Option<i32>)> },
    /// Read a line from standard input, for these variables.
    ReadLine { raw: bool, names: Vec<String> },
}

/// What reading a line came to.
#[derive(Debug)]
pub enum ReadOutcome {
    /// The read failed.
    Failed(String),
    /// The input was at its end.
    End,
    /// The bytes up to the newline, or up to the end.
    Bytes(Vec<u8>),
}

/// An answer of the world outside.
#[derive(Debug)]
pub enum Reply {
    /// To `ChangeDir`: the directory before, and the one after or the reason
    /// why the change failed.
    Moved { before: Option<String>, outcome: Result<Option<String>, String> },
    /// To `CurrentDir`.
    Dir(Result<String, String>),
    /// To `FirstFile`: the place of the candidate.
    Found(Option<usize>),
    /// To `LookAt`: nothing if there is no such path.
    Facts(Option<FileFacts>),
    /// To `Reap` and `Wait`: the exit status of each process that was
    /// collected.
    Statuses(Vec<Option<i32>>),
    /// To `Foreground`.
    Foreground(FgOutcome),
    /// To `Continue`.
    Resumed,
    /// To `Kill`: for each target, whether the signal was delivered.
    Delivered(Vec<bool>),
    /// To `ReadLine`.
    Read(ReadOutcome),
}

/// What a builtin comes to.
#[derive(Debug, Clone, Copy, PartialEq, Eq, Structural)]
pub enum BuiltinResult {
    /// The shell exits with this status.
    Exit(i32),
    /// The builtin is done, with this status.
    Status(i32),
}

/// How a builtin goes on.
#[derive(Debug)]
pub enum Next {
    Done(BuiltinResult),
    Ask(Request),
}

/// A step of a builtin: lines to write, and how it goes on.
#[derive(Debug)]
pub struct Step {
    pub lines: Vec<Line>,
    pub next: Next,
}

// ---------------------------------------------------------------------------
// Models.
// ---------------------------------------------------------------------------

/// Model of a request.
#[verifier::ext_equal]
pub enum RequestModel {
    ChangeDir { target: Seq<char> },
    CurrentDir,
    FirstFile { name: Seq<char>, candidates: Seq<Seq<char>> },
    LookAt { operands: Seq<Seq<char>>, path: Seq<char> },
    Reap { pids: Seq<i32>, style: JobsStyle },
    Foreground { index: int, pid: i32 },
    Continue { pid: i32 },
    Wait { pids: Seq<i32> },
    Kill { signal: Signal, targets: Seq<(Seq<char>, Option<i32>)> },
    ReadLine { raw: bool, names: Seq<Seq<char>> },
}

/// Model of the outcome of a read.
#[verifier::ext_equal]
pub enum ReadModel {
    Failed(Seq<char>),
    End,
    Bytes(Seq<u8>),
}

/// Model of a reply.
#[verifier::ext_equal]
pub enum ReplyModel {
    Moved { before: Option<Seq<char>>, outcome: Result<Option<Seq<char>>, Seq<char>> },
    Dir(Result<Seq<char>, Seq<char>>),
    Found(Option<usize>),
    Facts(Option<FileFacts>),
    Statuses(Seq<Option<i32>>),
    Foreground(FgOutcome),
    Resumed,
    Delivered(Seq<bool>),
    Read(ReadModel),
}

/// Model of how a builtin goes on.
#[verifier::ext_equal]
pub enum NextModel {
    Done(BuiltinResult),
    Ask(RequestModel),
}

/// Model of a step.
#[verifier::ext_equal]
pub struct StepModel {
    pub lines: Seq<report::LineModel>,
    pub next: NextModel,
}

/// The targets of a signal.
pub open spec fn target_models(v: Seq<(String, Option<i32>)>) -> Seq<(Seq<char>, Option<i32>)> {
    v.map_values(|t: (String, Option<i32>)| (t.0@, t.1))
}

impl Request {
    pub open spec fn model(self) -> RequestModel {
        match self {
            Request::ChangeDir { target } => RequestModel::ChangeDir { target: target@ },
            Request::CurrentDir => RequestModel::CurrentDir,
            Request::FirstFile { name, candidates } => RequestModel::FirstFile {
                name: name@,
                candidates: text::texts(candidates@),
            },
            Request::LookAt { operands, path } => RequestModel::LookAt {
                operands: text::texts(operands@),
                path: path@,
            },
            Request::Reap { pids, style } => RequestModel::Reap { pids: pids@, style },
            Request::Foreground { index, pid } => RequestModel::Foreground {
                index: index as int,
                pid,
            },
            Request::Continue { pid } => RequestModel::Continue { pid },
            Request::Wait { pids } => RequestModel::Wait { pids: pids@ },
            Request::Kill { signal, targets } => RequestModel::Kill {
                signal,
                targets: target_models(targets@),
            },
            Request::ReadLine { raw, names } => RequestModel::ReadLine {
                raw,
                names: text::texts(names@),
            },
        }
    }
}

impl ReadOutcome {
    pub open spec fn model(self) -> ReadModel {
        match self {
            ReadOutcome::Failed(e) => ReadModel::Failed(e@),
            ReadOutcome::End => ReadModel::End,
            ReadOutcome::Bytes(v) => ReadModel::Bytes(v@),
        }
    }
}

impl Reply {
    pub open spec fn model(self) -> ReplyModel {
        match self {
            Reply::Moved { before, outcome } => ReplyModel::Moved {
                before: state::optional_text(before),
                outcome: match outcome {
                    Ok(after) => Ok(state::optional_text(after)),
                    Err(e) => Err(e@),
                },
            },
            Reply::Dir(r) => ReplyModel::Dir(
                match r {
                    Ok(p) => Ok(p@),
                    Err(e) => Err(e@),
                },
            ),
            Reply::Found(i) => ReplyModel::Found(i),
            Reply::Facts(f) => ReplyModel::Facts(f),
            Reply::Statuses(v) => ReplyModel::Statuses(v@),
            Reply::Foreground(o) => ReplyModel::Foreground(o),
            Reply::Resumed => ReplyModel::Resumed,
            Reply::Delivered(v) => ReplyModel::Delivered(v@),
            Reply::Read(r) => ReplyModel::Read(r.model()),
        }
    }
}

impl Next {
    pub open spec fn model(self) -> NextModel {
        match self {
            Next::Done(r) => NextModel::Done(r),
            Next::Ask(q) => NextModel::Ask(q.model()),
        }
    }
}

impl Step {
    pub open spec fn model(self) -> StepModel {
        StepModel { lines: report::line_models(self.lines@), next: self.next.model() }
    }
}

/// A builtin that is done, with these lines and this status.
pub open spec fn ended(lines: Seq<report::LineModel>, status: i32) -> StepModel {
    StepModel { lines, next: NextModel::Done(BuiltinResult::Status(status)) }
}

/// A builtin that asks, with these lines before.
pub open spec fn asking(lines: Seq<report::LineModel>, request: RequestModel) -> StepModel {
    StepModel { lines, next: NextModel::Ask(request) }
}

/// A step that ends a builtin.
pub fn end(lines: Vec<Line>, status: i32) -> (r: Step)
    ensures
        r.model() == ended(report::line_models(lines@), status),
{
    Step { lines, next: Next::Done(BuiltinResult::Status(status)) }
}

/// A step that asks, without any lines.
pub fn ask(request: Request) -> (r: Step)
    ensures
        r.model() == asking(Seq::empty(), request.model()),
{
    let lines: Vec<Line> = Vec::new();
    assert(report::line_models(lines@) =~= Seq::empty());
    Step { lines, next: Next::Ask(request) }
}

} // verus!
