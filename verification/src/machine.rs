//! The parts of the machine that runs commands: what it is about to do, what
//! it waits for, what it asks of the world outside, and its model.

use crate::outside;
use crate::outside::{BuiltinResult, Reply, Request};
use crate::report;
use crate::report::Line;
use crate::state;
use crate::state::ShellState;
use crate::syntax;
use crate::syntax::{CaseArm, Connector, Job, Redirect, SimpleCommand, Unit};
use crate::table;
use crate::table::Table;
use crate::text;
use vstd::prelude::*;

verus! {

/// What the machine asks of the world outside.
#[derive(Debug)]
pub enum Action {
    /// A request of a builtin.
    Builtin(Request),
    /// List the paths that match a pattern; `literal` stands if there are none.
    Glob { pattern: String, literal: String },
    /// Divert standard output into a fresh buffer and note the working
    /// directory; then these jobs run.
    BeginCapture { jobs: Vec<Job> },
    /// End the diversion, go back to the directory noted, and hand over what
    /// was written.
    EndCapture,
    /// Open a file in place of standard output; then these words run.
    OpenOutput { redirect: Redirect, words: Vec<String> },
    /// Put standard output back.
    RestoreOutput { result: BuiltinResult },
    /// Run a program in the foreground, with these variables added to its
    /// environment.
    RunForeground { words: Vec<String>, envs: Vec<(String, String)>, redirects: Vec<Redirect> },
    /// Start a stage of a pipeline, its input connected to the stage before.
    /// A builtin or a function (`inner`) runs in a forked shell; the `last`
    /// stage writes where the shell does; a stage in the background gets a
    /// process group of its own.
    Spawn {
        words: Vec<String>,
        envs: Vec<(String, String)>,
        redirects: Vec<Redirect>,
        inner: bool,
        last: bool,
        background: bool,
    },
    /// Wait for the stages of a pipeline.
    WaitStages { pids: Vec<i32> },
}

/// What running a program in the foreground came to.
#[derive(Debug)]
pub enum Ran {
    /// It could not be started.
    Failed(String),
    /// It exited.
    Exited(i32),
    /// It stopped; this is its process id.
    Stopped(i32),
}

/// An answer of the world outside.
#[derive(Debug)]
pub enum Answer {
    Builtin(Reply),
    Paths(Vec<String>),
    Began(Result<(), String>),
    Captured(Result<String, String>),
    Opened(Result<(), String>),
    Restored,
    Ran(Ran),
    Spawned(Result<i32, String>),
    /// The exit code of each stage; nothing for one that a signal ended.
    Codes(Vec<Option<i32>>),
}

/// What the machine is about to do.
#[derive(Debug)]
pub enum Control {
    /// Run a list of jobs.
    Start(Vec<Job>),
    /// Go on with the list of jobs on top.
    NextJob,
    /// Run a unit.
    Run(Unit),
    /// Hand a status to the frame on top.
    Status(i32),
    /// Leave the shell.
    Exit(i32),
    /// Go on with the expansion on top at its next word.
    NextWord,
    /// Go on with the word of the expansion on top.
    Resolve,
    /// Hand the output of a command to the expansion on top.
    Output(String),
    /// Hand expanded words to the frame on top.
    Words(Vec<String>),
    /// Run a builtin or a function.
    Invoke(Vec<String>),
    /// Go on with the pipeline on top at its next stage.
    NextStage,
    /// Wait for an answer.
    Ask(Action),
    /// Over; with a status if the shell is to exit.
    Over(Option<i32>),
}

/// What the machine comes back to.
#[derive(Debug)]
#[allow(inconsistent_fields)]
pub enum Frame {
    /// A list of jobs: those still to come, and the connector before them.
    Jobs { rest: Vec<Job>, prev: Connector },
    /// An `if` whose condition runs.
    If { body: Vec<Job>, rest: Vec<(Vec<Job>, Vec<Job>)>, other: Option<Vec<Job>> },
    /// A `for` whose words are expanded.
    ForWords { var: String, body: Vec<Job> },
    /// A `for` whose body runs.
    For { var: String, items: Vec<String>, body: Vec<Job> },
    /// A loop whose condition runs; `last` is the status of its body.
    WhileCond { cond: Vec<Job>, body: Vec<Job>, until: bool, last: i32 },
    /// A loop whose body runs.
    WhileBody { cond: Vec<Job>, body: Vec<Job>, until: bool },
    /// A `case` whose subject is expanded.
    CaseWord { arms: Vec<CaseArm> },
    /// A `case` whose patterns are expanded.
    CaseArms { subject: String, body: Vec<Job>, rest: Vec<CaseArm> },
    /// An expansion of words.
    Expand {
        /// The words still to expand.
        words: Vec<String>,
        /// What came of those before.
        done: Vec<String>,
        /// Whether the command word was seen.
        command: bool,
        /// Whether the words are patterns of a `case`.
        patterns: bool,
        /// The shell variables when the expansion began.
        snapshot: Table<String>,
        /// The commands that the present word still has to substitute.
        pending: Vec<String>,
        /// The outputs of those before.
        outputs: Vec<String>,
    },
    /// A single command whose words are expanded.
    Simple { redirects: Vec<Redirect> },
    /// A pipeline, at one of its stages.
    Stages {
        /// The redirections of the present stage.
        redirects: Vec<Redirect>,
        /// The stages still to come.
        rest: Vec<SimpleCommand>,
        background: bool,
        /// The processes of those before.
        pids: Vec<i32>,
        /// Their commands.
        texts: Vec<String>,
    },
    /// A function call; the positional parameters of the caller.
    Call { saved: Vec<String> },
    /// A command whose standard output is a file.
    Diverted,
    /// A command substitution; the state of the shell around it.
    Capture { saved: ShellState },
}

/// The machine.
#[derive(Debug)]
pub struct Machine {
    pub control: Control,
    pub frames: Vec<Frame>,
    /// Lines that are still to be written.
    pub lines: Vec<Line>,
}

// ---------------------------------------------------------------------------
// Models.
// ---------------------------------------------------------------------------

/// Model of an action.
#[verifier::ext_equal]
pub enum ActionModel {
    Builtin(outside::RequestModel),
    Glob { pattern: Seq<char>, literal: Seq<char> },
    BeginCapture { jobs: Seq<syntax::JobModel> },
    EndCapture,
    OpenOutput { redirect: syntax::RedirectModel, words: Seq<Seq<char>> },
    RestoreOutput { result: BuiltinResult },
    RunForeground {
        words: Seq<Seq<char>>,
        envs: Seq<(Seq<char>, Seq<char>)>,
        redirects: Seq<syntax::RedirectModel>,
    },
    Spawn {
        words: Seq<Seq<char>>,
        envs: Seq<(Seq<char>, Seq<char>)>,
        redirects: Seq<syntax::RedirectModel>,
        inner: bool,
        last: bool,
        background: bool,
    },
    WaitStages { pids: Seq<i32> },
}

/// Model of what running a program came to.
#[verifier::ext_equal]
pub enum RanModel {
    Failed(Seq<char>),
    Exited(i32),
    Stopped(i32),
}

/// Model of an answer.
#[verifier::ext_equal]
pub enum AnswerModel {
    Builtin(outside::ReplyModel),
    Paths(Seq<Seq<char>>),
    Began(Result<(), Seq<char>>),
    Captured(Result<Seq<char>, Seq<char>>),
    Opened(Result<(), Seq<char>>),
    Restored,
    Ran(RanModel),
    Spawned(Result<i32, Seq<char>>),
    Codes(Seq<Option<i32>>),
}

/// Model of what the machine is about to do.
#[verifier::ext_equal]
pub enum ControlModel {
    Start(Seq<syntax::JobModel>),
    NextJob,
    Run(syntax::UnitModel),
    Status(i32),
    Exit(i32),
    NextWord,
    Resolve,
    Output(Seq<char>),
    Words(Seq<Seq<char>>),
    Invoke(Seq<Seq<char>>),
    NextStage,
    Ask(ActionModel),
    Over(Option<i32>),
}

/// Model of an expansion of words.
#[verifier::ext_equal]
pub struct ExpandModel {
    pub words: Seq<Seq<char>>,
    pub done: Seq<Seq<char>>,
    pub command: bool,
    pub patterns: bool,
    pub snapshot: table::Entries<Seq<char>>,
    pub pending: Seq<Seq<char>>,
    pub outputs: Seq<Seq<char>>,
}

/// Model of a pipeline.
#[verifier::ext_equal]
pub struct StagesModel {
    pub redirects: Seq<syntax::RedirectModel>,
    pub rest: Seq<syntax::SimpleModel>,
    pub background: bool,
    pub pids: Seq<i32>,
    pub texts: Seq<Seq<char>>,
}

/// Model of a frame.
#[verifier::ext_equal]
#[allow(inconsistent_fields)]
pub enum FrameModel {
    Jobs { rest: Seq<syntax::JobModel>, prev: Connector },
    If {
        body: Seq<syntax::JobModel>,
        rest: Seq<(Seq<syntax::JobModel>, Seq<syntax::JobModel>)>,
        other: Option<Seq<syntax::JobModel>>,
    },
    ForWords { var: Seq<char>, body: Seq<syntax::JobModel> },
    For { var: Seq<char>, items: Seq<Seq<char>>, body: Seq<syntax::JobModel> },
    WhileCond {
        cond: Seq<syntax::JobModel>,
        body: Seq<syntax::JobModel>,
        until: bool,
        last: i32,
    },
    WhileBody { cond: Seq<syntax::JobModel>, body: Seq<syntax::JobModel>, until: bool },
    CaseWord { arms: Seq<syntax::CaseArmModel> },
    CaseArms {
        subject: Seq<char>,
        body: Seq<syntax::JobModel>,
        rest: Seq<syntax::CaseArmModel>,
    },
    Expand(ExpandModel),
    Simple { redirects: Seq<syntax::RedirectModel> },
    Stages(StagesModel),
    Call { saved: Seq<Seq<char>> },
    Diverted,
    Capture { saved: state::StateModel },
}

/// The pairs of texts held by a sequence of pairs.
pub open spec fn pair_texts(v: Seq<(String, String)>) -> Seq<(Seq<char>, Seq<char>)> {
    v.map_values(|p: (String, String)| (p.0@, p.1@))
}

impl Action {
    pub open spec fn model(self) -> ActionModel {
        match self {
            Action::Builtin(q) => ActionModel::Builtin(q.model()),
            Action::Glob { pattern, literal } => ActionModel::Glob {
                pattern: pattern@,
                literal: literal@,
            },
            Action::BeginCapture { jobs } => ActionModel::BeginCapture {
                jobs: syntax::job_models(jobs@),
            },
            Action::EndCapture => ActionModel::EndCapture,
            Action::OpenOutput { redirect, words } => ActionModel::OpenOutput {
                redirect: redirect.model(),
                words: text::texts(words@),
            },
            Action::RestoreOutput { result } => ActionModel::RestoreOutput { result },
            Action::RunForeground { words, envs, redirects } => ActionModel::RunForeground {
                words: text::texts(words@),
                envs: pair_texts(envs@),
                redirects: syntax::redirect_models(redirects@),
            },
            Action::Spawn { words, envs, redirects, inner, last, background } => ActionModel::Spawn {
                words: text::texts(words@),
                envs: pair_texts(envs@),
                redirects: syntax::redirect_models(redirects@),
                inner,
                last,
                background,
            },
            Action::WaitStages { pids } => ActionModel::WaitStages { pids: pids@ },
        }
    }
}

impl Ran {
    pub open spec fn model(self) -> RanModel {
        match self {
            Ran::Failed(e) => RanModel::Failed(e@),
            Ran::Exited(code) => RanModel::Exited(code),
            Ran::Stopped(pid) => RanModel::Stopped(pid),
        }
    }
}

/// The model of an outcome without a value.
pub open spec fn unit_outcome(r: Result<(), String>) -> Result<(), Seq<char>> {
    match r {
        Ok(_) => Ok(()),
        Err(e) => Err(e@),
    }
}

impl Answer {
    pub open spec fn model(self) -> AnswerModel {
        match self {
            Answer::Builtin(r) => AnswerModel::Builtin(r.model()),
            Answer::Paths(v) => AnswerModel::Paths(text::texts(v@)),
            Answer::Began(r) => AnswerModel::Began(unit_outcome(r)),
            Answer::Captured(r) => AnswerModel::Captured(
                match r {
                    Ok(t) => Ok(t@),
                    Err(e) => Err(e@),
                },
            ),
            Answer::Opened(r) => AnswerModel::Opened(unit_outcome(r)),
            Answer::Restored => AnswerModel::Restored,
            Answer::Ran(r) => AnswerModel::Ran(r.model()),
            Answer::Spawned(r) => AnswerModel::Spawned(
                match r {
                    Ok(pid) => Ok(pid),
                    Err(e) => Err(e@),
                },
            ),
            Answer::Codes(v) => AnswerModel::Codes(v@),
        }
    }
}

impl Control {
    pub open spec fn model(self) -> ControlModel {
        match self {
            Control::Start(jobs) => ControlModel::Start(syntax::job_models(jobs@)),
            Control::NextJob => ControlModel::NextJob,
            Control::Run(unit) => ControlModel::Run(unit.model()),
            Control::Status(s) => ControlModel::Status(s),
            Control::Exit(code) => ControlModel::Exit(code),
            Control::NextWord => ControlModel::NextWord,
            Control::Resolve => ControlModel::Resolve,
            Control::Output(t) => ControlModel::Output(t@),
            Control::Words(v) => ControlModel::Words(text::texts(v@)),
            Control::Invoke(v) => ControlModel::Invoke(text::texts(v@)),
            Control::NextStage => ControlModel::NextStage,
            Control::Ask(a) => ControlModel::Ask(a.model()),
            Control::Over(r) => ControlModel::Over(r),
        }
    }
}

impl Frame {
    pub open spec fn model(self) -> FrameModel {
        match self {
            Frame::Jobs { rest, prev } => FrameModel::Jobs {
                rest: syntax::job_models(rest@),
                prev,
            },
            Frame::If { body, rest, other } => FrameModel::If {
                body: syntax::job_models(body@),
                rest: syntax::branch_models(rest@),
                other: match other {
                    Some(b) => Some(syntax::job_models(b@)),
                    None => None,
                },
            },
            Frame::ForWords { var, body } => FrameModel::ForWords {
                var: var@,
                body: syntax::job_models(body@),
            },
            Frame::For { var, items, body } => FrameModel::For {
                var: var@,
                items: text::texts(items@),
                body: syntax::job_models(body@),
            },
            Frame::WhileCond { cond, body, until, last } => FrameModel::WhileCond {
                cond: syntax::job_models(cond@),
                body: syntax::job_models(body@),
                until,
                last,
            },
            Frame::WhileBody { cond, body, until } => FrameModel::WhileBody {
                cond: syntax::job_models(cond@),
                body: syntax::job_models(body@),
                until,
            },
            Frame::CaseWord { arms } => FrameModel::CaseWord { arms: syntax::arm_models(arms@) },
            Frame::CaseArms { subject, body, rest } => FrameModel::CaseArms {
                subject: subject@,
                body: syntax::job_models(body@),
                rest: syntax::arm_models(rest@),
            },
            Frame::Expand { words, done, command, patterns, snapshot, pending, outputs } => {
                FrameModel::Expand(
                    ExpandModel {
                        words: text::texts(words@),
                        done: text::texts(done@),
                        command,
                        patterns,
                        snapshot: snapshot.model(),
                        pending: text::texts(pending@),
                        outputs: text::texts(outputs@),
                    },
                )
            },
            Frame::Simple { redirects } => FrameModel::Simple {
                redirects: syntax::redirect_models(redirects@),
            },
            Frame::Stages { redirects, rest, background, pids, texts } => FrameModel::Stages(
                StagesModel {
                    redirects: syntax::redirect_models(redirects@),
                    rest: syntax::simple_models(rest@),
                    background,
                    pids: pids@,
                    texts: text::texts(texts@),
                },
            ),
            Frame::Call { saved } => FrameModel::Call { saved: text::texts(saved@) },
            Frame::Diverted => FrameModel::Diverted,
            Frame::Capture { saved } => FrameModel::Capture { saved: saved.model() },
        }
    }
}

/// The models of a sequence of frames.
pub open spec fn frame_models(v: Seq<Frame>) -> Seq<FrameModel> {
    v.map_values(|f: Frame| f.model())
}

/// A machine and the state that it works on.
#[verifier::ext_equal]
pub struct Config {
    pub control: ControlModel,
    pub frames: Seq<FrameModel>,
    pub lines: Seq<report::LineModel>,
    pub st: state::StateModel,
}

/// The model of a machine on a state.
pub open spec fn config(m: &Machine, st: &ShellState) -> Config {
    Config {
        control: m.control.model(),
        frames: frame_models(m.frames@),
        lines: report::line_models(m.lines@),
        st: st.model(),
    }
}

impl Config {
    /// The same about to do something else.
    pub open spec fn go(self, control: ControlModel) -> Config {
        Config { control, ..self }
    }

    /// The same with a frame on top.
    pub open spec fn push(self, f: FrameModel) -> Config {
        Config { frames: self.frames.push(f), ..self }
    }

    /// The same without the frame on top.
    pub open spec fn pop(self) -> Config {
        Config { frames: self.frames.drop_last(), ..self }
    }

    /// The same with another frame on top.
    pub open spec fn replace(self, f: FrameModel) -> Config {
        self.pop().push(f)
    }

    /// The same on another state.
    pub open spec fn on(self, st: state::StateModel) -> Config {
        Config { st, ..self }
    }

    /// The same with more lines to write.
    pub open spec fn write(self, lines: Seq<report::LineModel>) -> Config {
        Config { lines: self.lines + lines, ..self }
    }

    /// The same with one more line for standard error.
    pub open spec fn complain(self, t: Seq<char>) -> Config {
        Config { lines: self.lines.push(report::complained(t)), ..self }
    }

    /// The frame on top.
    pub open spec fn top(self) -> Option<FrameModel> {
        if self.frames.len() == 0 {
            None
        } else {
            Some(self.frames.last())
        }
    }
}

impl Machine {
    /// Puts a frame on top.
    pub fn push_frame(&mut self, f: Frame)
        ensures
            final(self).control == old(self).control,
            final(self).lines == old(self).lines,
            frame_models(final(self).frames@) == frame_models(old(self).frames@).push(f.model()),
    {
        let ghost before = frame_models(self.frames@);
        let ghost m = f.model();
        self.frames.push(f);
        assert(frame_models(self.frames@) =~= before.push(m));
    }

    /// Takes the frame on top.
    pub fn pop_frame(&mut self) -> (r: Option<Frame>)
        ensures
            final(self).control == old(self).control,
            final(self).lines == old(self).lines,
            match r {
                Some(f) => {
                    &&& frame_models(old(self).frames@).len() > 0
                    &&& f.model() == frame_models(old(self).frames@).last()
                    &&& frame_models(final(self).frames@) == frame_models(
                        old(self).frames@,
                    ).drop_last()
                },
                None => {
                    &&& frame_models(old(self).frames@).len() == 0
                    &&& frame_models(final(self).frames@) == frame_models(old(self).frames@)
                },
            },
    {
        let ghost before = frame_models(self.frames@);
        let r = self.frames.pop();
        proof {
            if r is Some {
                assert(frame_models(self.frames@) =~= before.drop_last());
            } else {
                assert(frame_models(self.frames@) =~= before);
            }
        }
        r
    }
}

} // verus!
