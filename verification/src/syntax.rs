//! The syntax tree that the parser builds, its mathematical model, and
//! verified copies of it.

use crate::text;
use crate::text::clone_texts;
use crate::tokenizer::RedirectKind;
use vstd::prelude::*;

verus! {

/// A redirection and its target.
#[derive(Debug, Clone)]
pub struct Redirect {
    pub kind: RedirectKind,
    pub target: String,
}

/// Words and redirections.
#[derive(Debug, Clone)]
pub struct SimpleCommand {
    pub args: Vec<String>,
    pub redirects: Vec<Redirect>,
}

/// Simple commands joined by `|`.
#[derive(Debug, Clone)]
pub struct Pipeline {
    pub commands: Vec<SimpleCommand>,
    pub background: bool,
}

/// An executable unit: a pipeline of simple commands, a compound command, or a
/// group. A compound command cannot be part of a pipe.
#[derive(Debug)]
pub enum Unit {
    Pipeline(Pipeline),
    Compound(CompoundCommand),
    /// `{ cmd1; cmd2; }`, which runs its jobs in the current shell.
    Group(Vec<Job>),
}

/// The control structures.
#[derive(Debug)]
pub enum CompoundCommand {
    If(IfChain),
    For { var: String, words: Vec<String>, body: Vec<Job> },
    /// `until` tells an `until` loop from a `while` loop.
    While { cond: Vec<Job>, body: Vec<Job>, until: bool },
    Case { word: String, arms: Vec<CaseArm> },
    FunctionDef { name: String, body: Vec<Job> },
}

/// `if` with its `elif` branches and `else`.
#[derive(Debug)]
pub struct IfChain {
    /// Pairs (condition, body) for the `if` and each `elif`.
    pub branches: Vec<(Vec<Job>, Vec<Job>)>,
    pub else_body: Option<Vec<Job>>,
}

/// One arm of a `case`.
#[derive(Debug)]
pub struct CaseArm {
    /// Patterns separated by `|`.
    pub patterns: Vec<String>,
    pub body: Vec<Job>,
}

/// What joins a job to the next one.
#[derive(Debug, Clone, Copy, PartialEq, Eq, Structural)]
pub enum Connector {
    /// `&&`: the next job runs only if this one succeeded.
    And,
    /// `||`: the next job runs only if this one failed.
    Or,
    /// `;` or the end of the list: the next job runs in any case.
    Sequence,
}

/// A unit and its connector towards the next job.
#[derive(Debug)]
pub struct Job {
    pub unit: Unit,
    pub connector: Connector,
}

// ---------------------------------------------------------------------------
// Models.
// ---------------------------------------------------------------------------

/// Model of a redirection.
pub struct RedirectModel {
    pub kind: RedirectKind,
    pub target: Seq<char>,
}

/// Model of a simple command.
#[verifier::ext_equal]
pub struct SimpleModel {
    pub args: Seq<Seq<char>>,
    pub redirects: Seq<RedirectModel>,
}

/// Model of a pipeline.
#[verifier::ext_equal]
pub struct PipelineModel {
    pub commands: Seq<SimpleModel>,
    pub background: bool,
}

/// Model of a unit.
#[verifier::ext_equal]
pub enum UnitModel {
    Pipeline(PipelineModel),
    Compound(CompoundModel),
    Group(Seq<JobModel>),
}

/// Model of a compound command.
#[verifier::ext_equal]
pub enum CompoundModel {
    If(IfModel),
    For { var: Seq<char>, words: Seq<Seq<char>>, body: Seq<JobModel> },
    While { cond: Seq<JobModel>, body: Seq<JobModel>, until: bool },
    Case { word: Seq<char>, arms: Seq<CaseArmModel> },
    FunctionDef { name: Seq<char>, body: Seq<JobModel> },
}

/// Model of an `if` chain.
#[verifier::ext_equal]
pub struct IfModel {
    pub branches: Seq<(Seq<JobModel>, Seq<JobModel>)>,
    pub else_body: Option<Seq<JobModel>>,
}

/// Model of a `case` arm.
#[verifier::ext_equal]
pub struct CaseArmModel {
    pub patterns: Seq<Seq<char>>,
    pub body: Seq<JobModel>,
}

/// Model of a job.
#[verifier::ext_equal]
pub struct JobModel {
    pub unit: UnitModel,
    pub connector: Connector,
}

impl Redirect {
    pub open spec fn model(self) -> RedirectModel {
        RedirectModel { kind: self.kind, target: self.target@ }
    }
}

/// The models of a sequence of redirections.
pub open spec fn redirect_models(v: Seq<Redirect>) -> Seq<RedirectModel> {
    v.map_values(|r: Redirect| r.model())
}

impl SimpleCommand {
    pub open spec fn model(self) -> SimpleModel {
        SimpleModel {
            args: text::texts(self.args@),
            redirects: redirect_models(self.redirects@),
        }
    }
}

/// The models of a sequence of simple commands.
pub open spec fn simple_models(v: Seq<SimpleCommand>) -> Seq<SimpleModel> {
    v.map_values(|c: SimpleCommand| c.model())
}

impl Pipeline {
    pub open spec fn model(self) -> PipelineModel {
        PipelineModel { commands: simple_models(self.commands@), background: self.background }
    }
}

impl Unit {
    pub open spec fn model(self) -> UnitModel
        decreases self,
    {
        match self {
            Unit::Pipeline(p) => UnitModel::Pipeline(p.model()),
            Unit::Compound(c) => UnitModel::Compound(c.model()),
            Unit::Group(jobs) => UnitModel::Group(job_models(jobs@)),
        }
    }
}

impl CompoundCommand {
    pub open spec fn model(self) -> CompoundModel
        decreases self,
    {
        match self {
            CompoundCommand::If(chain) => CompoundModel::If(chain.model()),
            CompoundCommand::For { var, words, body } => CompoundModel::For {
                var: var@,
                words: text::texts(words@),
                body: job_models(body@),
            },
            CompoundCommand::While { cond, body, until } => CompoundModel::While {
                cond: job_models(cond@),
                body: job_models(body@),
                until,
            },
            CompoundCommand::Case { word, arms } => CompoundModel::Case {
                word: word@,
                arms: arm_models(arms@),
            },
            CompoundCommand::FunctionDef { name, body } => CompoundModel::FunctionDef {
                name: name@,
                body: job_models(body@),
            },
        }
    }
}

impl IfChain {
    pub open spec fn model(self) -> IfModel
        decreases self,
    {
        IfModel {
            branches: branch_models(self.branches@),
            else_body: match self.else_body {
                Some(b) => Some(job_models(b@)),
                None => None,
            },
        }
    }
}

impl CaseArm {
    pub open spec fn model(self) -> CaseArmModel
        decreases self,
    {
        CaseArmModel { patterns: text::texts(self.patterns@), body: job_models(self.body@) }
    }
}

impl Job {
    pub open spec fn model(self) -> JobModel
        decreases self,
    {
        JobModel { unit: self.unit.model(), connector: self.connector }
    }
}

impl DeepView for Job {
    type V = JobModel;

    open spec fn deep_view(&self) -> JobModel {
        self.model()
    }
}

/// The two ways to take the model of a list of jobs agree.
pub proof fn lemma_jobs_view(v: Vec<Job>)
    ensures
        v.deep_view() == job_models(v@),
{
    assert(v.deep_view() =~= job_models(v@));
}

/// The models of a sequence of jobs.
pub open spec fn job_models(v: Seq<Job>) -> Seq<JobModel>
    decreases v,
{
    Seq::new(
        v.len(),
        |i: int|
            if 0 <= i < v.len() {
                v[i].model()
            } else {
                arbitrary()
            },
    )
}

/// The models of a sequence of `case` arms.
pub open spec fn arm_models(v: Seq<CaseArm>) -> Seq<CaseArmModel>
    decreases v,
{
    Seq::new(
        v.len(),
        |i: int|
            if 0 <= i < v.len() {
                v[i].model()
            } else {
                arbitrary()
            },
    )
}

/// The models of a sequence of `if` branches.
pub open spec fn branch_models(v: Seq<(Vec<Job>, Vec<Job>)>) -> Seq<(Seq<JobModel>, Seq<JobModel>)>
    decreases v,
{
    Seq::new(
        v.len(),
        |i: int|
            if 0 <= i < v.len() {
                (job_models(v[i].0@), job_models(v[i].1@))
            } else {
                arbitrary()
            },
    )
}

// ---------------------------------------------------------------------------
// Copies.
// ---------------------------------------------------------------------------

/// A copy of a list of redirections.
pub fn copy_redirects(v: &Vec<Redirect>) -> (r: Vec<Redirect>)
    ensures
        redirect_models(r@) == redirect_models(v@),
{
    let mut out: Vec<Redirect> = Vec::new();
    let mut i: usize = 0;
    while i < v.len()
        invariant
            i <= v@.len(),
            out@.len() == i,
            forall|k: int| 0 <= k < i ==> (#[trigger] out@[k]).model() == v@[k].model(),
        decreases v@.len() - i,
    {
        out.push(Redirect { kind: v[i].kind, target: v[i].target.clone() });
        i += 1;
    }
    assert(redirect_models(out@) =~= redirect_models(v@));
    out
}

/// A copy of a simple command.
pub fn copy_simple(c: &SimpleCommand) -> (r: SimpleCommand)
    ensures
        r.model() == c.model(),
{
    SimpleCommand { args: clone_texts(&c.args), redirects: copy_redirects(&c.redirects) }
}

/// A copy of a pipeline.
pub fn copy_pipeline(p: &Pipeline) -> (r: Pipeline)
    ensures
        r.model() == p.model(),
{
    let mut out: Vec<SimpleCommand> = Vec::new();
    let mut i: usize = 0;
    while i < p.commands.len()
        invariant
            i <= p.commands@.len(),
            out@.len() == i,
            forall|k: int| 0 <= k < i ==> (#[trigger] out@[k]).model() == p.commands@[k].model(),
        decreases p.commands@.len() - i,
    {
        out.push(copy_simple(&p.commands[i]));
        i += 1;
    }
    assert(simple_models(out@) =~= simple_models(p.commands@));
    Pipeline { commands: out, background: p.background }
}

/// A copy of a list of jobs.
pub fn copy_jobs(v: &Vec<Job>) -> (r: Vec<Job>)
    ensures
        job_models(r@) == job_models(v@),
    decreases v,
{
    let mut out: Vec<Job> = Vec::new();
    let mut i: usize = 0;
    while i < v.len()
        invariant
            i <= v@.len(),
            out@.len() == i,
            forall|k: int| 0 <= k < i ==> (#[trigger] out@[k]).model() == v@[k].model(),
        decreases v@.len() - i,
    {
        let unit = copy_unit(&v[i].unit);
        out.push(Job { unit, connector: v[i].connector });
        i += 1;
    }
    assert(job_models(out@) =~= job_models(v@));
    out
}

/// A copy of a unit.
pub fn copy_unit(u: &Unit) -> (r: Unit)
    ensures
        r.model() == u.model(),
    decreases u,
{
    match u {
        Unit::Pipeline(p) => Unit::Pipeline(copy_pipeline(p)),
        Unit::Compound(c) => Unit::Compound(copy_compound(c)),
        Unit::Group(jobs) => Unit::Group(copy_jobs(jobs)),
    }
}

fn copy_arms(v: &Vec<CaseArm>) -> (r: Vec<CaseArm>)
    ensures
        arm_models(r@) == arm_models(v@),
    decreases v,
{
    let mut out: Vec<CaseArm> = Vec::new();
    let mut i: usize = 0;
    while i < v.len()
        invariant
            i <= v@.len(),
            out@.len() == i,
            forall|k: int| 0 <= k < i ==> (#[trigger] out@[k]).model() == v@[k].model(),
        decreases v@.len() - i,
    {
        let patterns = clone_texts(&v[i].patterns);
        let body = copy_jobs(&v[i].body);
        out.push(CaseArm { patterns, body });
        i += 1;
    }
    assert(arm_models(out@) =~= arm_models(v@));
    out
}

fn copy_branches(v: &Vec<(Vec<Job>, Vec<Job>)>) -> (r: Vec<(Vec<Job>, Vec<Job>)>)
    ensures
        branch_models(r@) == branch_models(v@),
    decreases v,
{
    let mut out: Vec<(Vec<Job>, Vec<Job>)> = Vec::new();
    let mut i: usize = 0;
    while i < v.len()
        invariant
            i <= v@.len(),
            out@.len() == i,
            forall|k: int|
                0 <= k < i ==> job_models((#[trigger] out@[k]).0@) == job_models(v@[k].0@)
                    && job_models(out@[k].1@) == job_models(v@[k].1@),
        decreases v@.len() - i,
    {
        let cond = copy_jobs(&v[i].0);
        let body = copy_jobs(&v[i].1);
        out.push((cond, body));
        i += 1;
    }
    assert(branch_models(out@) =~= branch_models(v@));
    out
}

/// A copy of a compound command.
pub fn copy_compound(c: &CompoundCommand) -> (r: CompoundCommand)
    ensures
        r.model() == c.model(),
    decreases c,
{
    match c {
        CompoundCommand::If(chain) => {
            let branches = copy_branches(&chain.branches);
            let else_body = match &chain.else_body {
                Some(b) => Some(copy_jobs(b)),
                None => None,
            };
            CompoundCommand::If(IfChain { branches, else_body })
        },
        CompoundCommand::For { var, words, body } => CompoundCommand::For {
            var: var.clone(),
            words: clone_texts(words),
            body: copy_jobs(body),
        },
        CompoundCommand::While { cond, body, until } => CompoundCommand::While {
            cond: copy_jobs(cond),
            body: copy_jobs(body),
            until: *until,
        },
        CompoundCommand::Case { word, arms } => CompoundCommand::Case {
            word: word.clone(),
            arms: copy_arms(arms),
        },
        CompoundCommand::FunctionDef { name, body } => CompoundCommand::FunctionDef {
            name: name.clone(),
            body: copy_jobs(body),
        },
    }
}

} // verus!
