//! The machine that runs commands. It works in steps and never waits: where
//! the world outside is needed it asks, and goes on with the answer.

use crate::arith;
use crate::builtins;
use crate::builtins::{finish_builtin, is_builtin, run_builtin};
use crate::expand;
use crate::expand::{
    command_substs, expand_pattern, expand_word, finish_word, is_valid_name, WordPlan,
};
use crate::machine;
use crate::machine::{Action, Answer, Control, Frame, Machine, Ran};
use crate::outside;
use crate::outside::{BuiltinResult, Next, Step};
use crate::parser;
use crate::parser::parse;
use crate::pattern;
use crate::pattern::pattern_matches;
use crate::redirect;
use crate::redirect::{output_redirect, plain_redirects};
use crate::report;
use crate::report::{add_lines, complain, concat, concat3, no_lines, say};
use crate::state;
use crate::state::ShellState;
use crate::syntax;
use crate::syntax::{
    copy_jobs, copy_redirects, copy_simple, CaseArm, CompoundCommand, Connector, IfChain, Job,
    Pipeline, Redirect, SimpleCommand, Unit,
};
use crate::table;
use crate::table::copy_table;
use crate::text;
use crate::text::{i64_text, join, slice_text, split_once, split_words, to_chars};
use crate::tokenizer;
use crate::tokenizer::tokenize;
use crate::vars;
use crate::vars::Vars;
use vstd::prelude::*;

verus! {

// ---------------------------------------------------------------------------
// Words of a command.
// ---------------------------------------------------------------------------

/// The leading assignments from the `i`th word on, behind those of `acc`, and
/// the words of the command.
pub open spec fn split_from(
    args: Seq<Seq<char>>,
    i: int,
    acc: Seq<(Seq<char>, Seq<char>)>,
) -> (Seq<(Seq<char>, Seq<char>)>, Seq<Seq<char>>)
    decreases args.len() - i,
{
    if i < 0 || i >= args.len() {
        (acc, args.skip(i))
    } else {
        match text::split_at_char(args[i], '=') {
            Some((key, value)) => if expand::valid_name(key) {
                split_from(args, i + 1, acc.push((key, value)))
            } else {
                (acc, args.skip(i))
            },
            None => (acc, args.skip(i)),
        }
    }
}

/// The leading assignments and the words of a command.
pub open spec fn split_words_of(args: Seq<Seq<char>>) -> (
    Seq<(Seq<char>, Seq<char>)>,
    Seq<Seq<char>>,
) {
    split_from(args, 0, Seq::empty())
}

fn texts_from(v: &[String], from: usize) -> (r: Vec<String>)
    requires
        from <= v@.len(),
    ensures
        text::texts(r@) == text::texts(v@).skip(from as int),
{
    let mut out: Vec<String> = Vec::new();
    let mut i: usize = from;
    while i < v.len()
        invariant
            from <= i <= v@.len(),
            out@ =~= v@.subrange(from as int, i as int),
        decreases v@.len() - i,
    {
        out.push(v[i].clone());
        i += 1;
    }
    assert(text::texts(out@) =~= text::texts(v@).skip(from as int));
    out
}

/// Splits expanded words into the leading `NAME=value` assignments and the
/// words of the command. Behind the first word of the command nothing is an
/// assignment.
pub fn split_assignments(args: &[String]) -> (r: (Vec<(String, String)>, Vec<String>))
    ensures
        (machine::pair_texts(r.0@), text::texts(r.1@)) == split_words_of(text::texts(args@)),
{
    let ghost all = text::texts(args@);
    let mut assigns: Vec<(String, String)> = Vec::new();
    let mut i: usize = 0;
    assert(machine::pair_texts(assigns@) =~= Seq::empty());
    while i < args.len()
        invariant
            i <= args@.len(),
            all == text::texts(args@),
            split_words_of(all) == split_from(all, i as int, machine::pair_texts(assigns@)),
        decreases args@.len() - i,
    {
        assert(all[i as int] == args@[i as int]@);
        match split_once(args[i].as_str(), '=') {
            Some((key, value)) => {
                if !is_valid_name(key.as_str()) {
                    return (assigns, texts_from(args, i));
                }
                let ghost before = machine::pair_texts(assigns@);
                let ghost p = (key@, value@);
                assigns.push((key, value));
                assert(machine::pair_texts(assigns@) =~= before.push(p));
            },
            None => {
                return (assigns, texts_from(args, i));
            },
        }
        i += 1;
    }
    (assigns, texts_from(args, i))
}

/// The variables with the assignments from the `i`th on made.
pub open spec fn applied(
    assigns: Seq<(Seq<char>, Seq<char>)>,
    i: int,
    vars: vars::VarsModel,
) -> vars::VarsModel
    decreases assigns.len() - i,
{
    if i < 0 || i >= assigns.len() {
        vars
    } else {
        applied(assigns, i + 1, vars.set(assigns[i].0, assigns[i].1))
    }
}

/// Makes assignments in the shell. They are not exported.
pub fn apply_assignments(assigns: &[(String, String)], vars: &mut Vars)
    ensures
        final(vars).model() == applied(machine::pair_texts(assigns@), 0, old(vars).model()),
{
    let ghost all = machine::pair_texts(assigns@);
    let mut i: usize = 0;
    while i < assigns.len()
        invariant
            i <= assigns@.len(),
            all == machine::pair_texts(assigns@),
            applied(all, 0, old(vars).model()) == applied(all, i as int, vars.model()),
        decreases assigns@.len() - i,
    {
        assert(all[i as int] == (assigns@[i as int].0@, assigns@[i as int].1@));
        vars.insert(assigns[i].0.clone(), assigns[i].1.clone());
        i += 1;
    }
}

/// The words of a command with its alias in place of the first one.
pub open spec fn alias_args(args: Seq<Seq<char>>, aliases: table::Entries<Seq<char>>) -> Seq<
    Seq<char>,
> {
    if args.len() == 0 {
        args
    } else {
        match table::lookup(aliases, args[0]) {
            Some(expansion) => text::words(expansion) + args.skip(1),
            None => args,
        }
    }
}

/// Puts the alias of a command, if it has one, in place of its first word.
pub fn resolve_alias(cmd: &SimpleCommand, state: &ShellState) -> (r: SimpleCommand)
    ensures
        r.model().args == alias_args(cmd.model().args, state.model().aliases),
        r.model().redirects == cmd.model().redirects,
{
    if cmd.args.len() > 0 {
        assert(cmd.model().args[0] == cmd.args@[0]@);
        match state.aliases.get(cmd.args[0].as_str()) {
            Some(expansion) => {
                let mut args = split_words(expansion.as_str());
                let mut rest = texts_from(&cmd.args, 1);
                let ghost a = text::texts(args@);
                let ghost b = text::texts(rest@);
                args.append(&mut rest);
                assert(text::texts(args@) =~= a + b);
                return SimpleCommand { args, redirects: copy_redirects(&cmd.redirects) };
            },
            None => {},
        }
    }
    copy_simple(cmd)
}

/// One of the patterns from the `i`th on matches a value.
pub open spec fn matches_from(patterns: Seq<Seq<char>>, i: int, value: Seq<char>) -> bool
    decreases patterns.len() - i,
{
    if i < 0 || i >= patterns.len() {
        false
    } else {
        pattern::matching(patterns[i], value) || matches_from(patterns, i + 1, value)
    }
}

fn any_matches(patterns: &[String], value: &str) -> (r: bool)
    ensures
        r == matches_from(text::texts(patterns@), 0, value@),
{
    let ghost all = text::texts(patterns@);
    let mut i: usize = 0;
    while i < patterns.len()
        invariant
            i <= patterns@.len(),
            all == text::texts(patterns@),
            matches_from(all, 0, value@) == matches_from(all, i as int, value@),
        decreases patterns@.len() - i,
    {
        assert(all[i as int] == patterns@[i as int]@);
        if pattern_matches(patterns[i].as_str(), value) {
            return true;
        }
        i += 1;
    }
    false
}

/// The jobs that a text denotes.
pub open spec fn program(input: Seq<char>) -> Result<Seq<syntax::JobModel>, Seq<char>> {
    match tokenizer::tokens_of(input) {
        Ok(ts) => parser::jobs_of(ts),
        Err(e) => Err(e),
    }
}

/// Reads a text into jobs.
fn read_program(input: &str) -> (r: Result<Vec<Job>, String>)
    ensures
        match r {
            Ok(jobs) => program(input@) == Ok::<Seq<syntax::JobModel>, Seq<char>>(
                syntax::job_models(jobs@),
            ),
            Err(e) => program(input@) == Err::<Seq<syntax::JobModel>, Seq<char>>(e@),
        },
{
    match tokenize(input) {
        Ok(tokens) => parse(tokens),
        Err(e) => Err(e),
    }
}

/// The text without newlines at its end.
pub open spec fn without_newlines(s: Seq<char>) -> Seq<char>
    decreases s.len(),
{
    if s.len() > 0 && s.last() == '\n' {
        without_newlines(s.drop_last())
    } else {
        s
    }
}

fn trim_newlines(s: &str) -> (r: String)
    ensures
        r@ == without_newlines(s@),
{
    let chars = to_chars(s);
    let mut n: usize = chars.len();
    assert(s@.take(n as int) =~= s@);
    while n > 0 && chars[n - 1] == '\n'
        invariant
            n <= chars@.len(),
            chars@ == s@,
            without_newlines(s@) == without_newlines(s@.take(n as int)),
        decreases n,
    {
        n -= 1;
        assert(s@.take(n + 1).drop_last() =~= s@.take(n as int));
    }
    assert(s@.subrange(0, n as int) =~= s@.take(n as int));
    slice_text(&chars, 0, n)
}

// ---------------------------------------------------------------------------
// The meaning of a step.
// ---------------------------------------------------------------------------

/// Where the machine comes to rest if what it is about to do does not fit what
/// it comes back to, which never happens.
pub open spec fn stuck(c: machine::Config) -> machine::Config {
    c.go(machine::ControlModel::Over(None))
}

/// Whether a job runs behind a connector, given the last status.
pub open spec fn should_run(prev: Connector, status: i32) -> bool {
    match prev {
        Connector::And => status == 0,
        Connector::Or => status != 0,
        Connector::Sequence => true,
    }
}

/// The next job of a list.
pub open spec fn next_job(
    c: machine::Config,
    rest: Seq<syntax::JobModel>,
    prev: Connector,
) -> machine::Config {
    if rest.len() == 0 {
        c.pop().go(machine::ControlModel::Status(c.st.last_status))
    } else {
        let d = c.replace(
            machine::FrameModel::Jobs { rest: rest.skip(1), prev: rest[0].connector },
        );
        if should_run(prev, c.st.last_status) {
            d.go(machine::ControlModel::Run(rest[0].unit))
        } else {
            d.go(machine::ControlModel::NextJob)
        }
    }
}

/// The beginning of an expansion.
pub open spec fn begin_expand(
    c: machine::Config,
    words: Seq<Seq<char>>,
    patterns: bool,
) -> machine::Config {
    c.push(
        machine::FrameModel::Expand(
            machine::ExpandModel {
                words,
                done: Seq::empty(),
                command: false,
                patterns,
                snapshot: c.st.vars.shell,
                pending: Seq::empty(),
                outputs: Seq::empty(),
            },
        ),
    ).go(machine::ControlModel::NextWord)
}

/// The next word of an expansion.
pub open spec fn next_word(c: machine::Config, e: machine::ExpandModel) -> machine::Config {
    if e.words.len() == 0 {
        c.pop().go(machine::ControlModel::Words(e.done))
    } else {
        c.replace(
            machine::FrameModel::Expand(
                machine::ExpandModel {
                    pending: expand::commands_of(e.words[0]),
                    outputs: Seq::empty(),
                    ..e
                },
            ),
        ).go(machine::ControlModel::Resolve)
    }
}

/// Diagnostics as lines.
pub open spec fn notice_lines(notices: Seq<Seq<char>>) -> Seq<report::LineModel> {
    notices.map_values(|n: Seq<char>| report::complained(n))
}

/// A word whose commands have all run.
pub open spec fn finish_resolve(c: machine::Config, e: machine::ExpandModel) -> machine::Config {
    let (w, vars) = expand::resolved(
        e.words[0],
        e.outputs,
        arith::Scope { vars: c.st.vars, positional: c.st.positional },
        c.st.last_status as int,
    );
    let d = c.on(
        state::StateModel {
            vars: vars::VarsModel { notices: Seq::empty(), ..vars },
            ..c.st
        },
    ).write(notice_lines(vars.notices));
    let rest = machine::ExpandModel {
        words: e.words.skip(1),
        command: e.command || !expand::assignment_word(w),
        ..e
    };
    if e.patterns {
        d.replace(
            machine::FrameModel::Expand(
                machine::ExpandModel {
                    done: e.done + expand::patterns_of(w, e.command),
                    ..rest
                },
            ),
        ).go(machine::ControlModel::NextWord)
    } else {
        match expand::plan_of(w, e.command) {
            expand::PlanModel::Pathname { pattern, literal } => d.replace(
                machine::FrameModel::Expand(rest),
            ).go(
                machine::ControlModel::Ask(machine::ActionModel::Glob { pattern, literal }),
            ),
            plan => d.replace(
                machine::FrameModel::Expand(
                    machine::ExpandModel {
                        done: e.done + expand::plan_words(plan, Seq::empty()),
                        ..rest
                    },
                ),
            ).go(machine::ControlModel::NextWord),
        }
    }
}

/// The present word of an expansion: its next command, or the word itself.
pub open spec fn resolve(c: machine::Config, e: machine::ExpandModel) -> machine::Config {
    if e.pending.len() > 0 {
        let d = c.replace(
            machine::FrameModel::Expand(
                machine::ExpandModel { pending: e.pending.skip(1), ..e },
            ),
        );
        match program(e.pending[0]) {
            Ok(jobs) => d.go(
                machine::ControlModel::Ask(machine::ActionModel::BeginCapture { jobs }),
            ),
            Err(m) => d.complain("rsh: $(...): "@ + m).go(
                machine::ControlModel::Output(Seq::empty()),
            ),
        }
    } else if e.words.len() == 0 {
        stuck(c)
    } else {
        finish_resolve(c, e)
    }
}

/// The output of a command for an expansion.
pub open spec fn take_output(
    c: machine::Config,
    e: machine::ExpandModel,
    t: Seq<char>,
) -> machine::Config {
    c.replace(
        machine::FrameModel::Expand(machine::ExpandModel { outputs: e.outputs.push(t), ..e }),
    ).go(machine::ControlModel::Resolve)
}

/// The next branch of an `if`, else its `else`.
pub open spec fn next_branch(
    c: machine::Config,
    branches: Seq<(Seq<syntax::JobModel>, Seq<syntax::JobModel>)>,
    other: Option<Seq<syntax::JobModel>>,
) -> machine::Config {
    if branches.len() > 0 {
        c.push(
            machine::FrameModel::If { body: branches[0].1, rest: branches.skip(1), other },
        ).go(machine::ControlModel::Start(branches[0].0))
    } else {
        match other {
            Some(b) => c.go(machine::ControlModel::Start(b)),
            None => c.go(machine::ControlModel::Status(0)),
        }
    }
}

/// The next arm of a `case`.
pub open spec fn next_arm(
    c: machine::Config,
    subject: Seq<char>,
    arms: Seq<syntax::CaseArmModel>,
) -> machine::Config {
    if arms.len() == 0 {
        c.go(machine::ControlModel::Status(0))
    } else {
        begin_expand(
            c.push(
                machine::FrameModel::CaseArms {
                    subject,
                    body: arms[0].body,
                    rest: arms.skip(1),
                },
            ),
            arms[0].patterns,
            true,
        )
    }
}

/// The next stage of a pipeline, or its end.
pub open spec fn next_stage(c: machine::Config, s: machine::StagesModel) -> machine::Config {
    if s.rest.len() > 0 {
        begin_expand(
            c.replace(
                machine::FrameModel::Stages(
                    machine::StagesModel {
                        redirects: redirect::plain(s.rest[0].redirects),
                        rest: s.rest.skip(1),
                        ..s
                    },
                ),
            ),
            alias_args(s.rest[0].args, c.st.aliases),
            false,
        )
    } else if s.pids.len() == 0 {
        c.pop().go(machine::ControlModel::Status(0))
    } else if s.background {
        c.pop().on(listed(c.st, text::joined(s.texts, " | "@), s.pids.last())).write(
            seq![report::said("[bg] pid "@ + text::decimal_int(s.pids.last() as int))],
        ).go(machine::ControlModel::Status(0))
    } else {
        c.pop().go(
            machine::ControlModel::Ask(machine::ActionModel::WaitStages { pids: s.pids }),
        )
    }
}

/// A job added to the table, as long as there are ids.
pub open spec fn listed(st: state::StateModel, command: Seq<char>, pid: i32) -> state::StateModel {
    if st.next_job_id < usize::MAX {
        st.with_job(command, pid)
    } else {
        st
    }
}

/// A stopped job added to the table, as long as there are ids.
pub open spec fn listed_stopped(
    st: state::StateModel,
    command: Seq<char>,
    pid: i32,
) -> state::StateModel {
    if st.next_job_id < usize::MAX {
        st.with_stopped_job(command, pid)
    } else {
        st
    }
}

/// The beginning of a pipeline: a single command in the foreground stands by
/// itself.
pub open spec fn run_pipeline_at(c: machine::Config, p: syntax::PipelineModel) -> machine::Config {
    if p.commands.len() == 1 && !p.background {
        begin_expand(
            c.push(
                machine::FrameModel::Simple {
                    redirects: redirect::plain(p.commands[0].redirects),
                },
            ),
            alias_args(p.commands[0].args, c.st.aliases),
            false,
        )
    } else {
        c.push(
            machine::FrameModel::Stages(
                machine::StagesModel {
                    redirects: Seq::empty(),
                    rest: p.commands,
                    background: p.background,
                    pids: Seq::empty(),
                    texts: Seq::empty(),
                },
            ),
        ).go(machine::ControlModel::NextStage)
    }
}

/// The beginning of a compound command.
pub open spec fn run_compound_at(
    c: machine::Config,
    cmd: syntax::CompoundModel,
) -> machine::Config {
    match cmd {
        syntax::CompoundModel::If(chain) => next_branch(c, chain.branches, chain.else_body),
        syntax::CompoundModel::For { var, words, body } => begin_expand(
            c.push(machine::FrameModel::ForWords { var, body }),
            words,
            false,
        ),
        syntax::CompoundModel::While { cond, body, until } => c.push(
            machine::FrameModel::WhileCond { cond, body, until, last: 0 },
        ).go(machine::ControlModel::Start(cond)),
        syntax::CompoundModel::Case { word, arms } => begin_expand(
            c.push(machine::FrameModel::CaseWord { arms }),
            seq![word],
            false,
        ),
        syntax::CompoundModel::FunctionDef { name, body } => c.on(
            state::StateModel { functions: table::with(c.st.functions, name, body), ..c.st },
        ).go(machine::ControlModel::Status(0)),
    }
}

/// The beginning of a unit.
pub open spec fn run_unit_at(c: machine::Config, unit: syntax::UnitModel) -> machine::Config {
    match unit {
        syntax::UnitModel::Pipeline(p) => run_pipeline_at(c, p),
        syntax::UnitModel::Compound(cmd) => run_compound_at(c, cmd),
        syntax::UnitModel::Group(jobs) => c.go(machine::ControlModel::Start(jobs)),
    }
}

/// The command is a builtin or a function.
pub open spec fn inner_command(name: Seq<char>, st: state::StateModel) -> bool {
    builtins::builtin_name(name) || table::lookup(st.functions, name) is Some
}

/// The state with assignments made.
pub open spec fn assigned(
    st: state::StateModel,
    assigns: Seq<(Seq<char>, Seq<char>)>,
) -> state::StateModel {
    state::StateModel { vars: applied(assigns, 0, st.vars), ..st }
}

/// A single command whose words are expanded.
pub open spec fn run_simple(
    c: machine::Config,
    args: Seq<Seq<char>>,
    redirects: Seq<syntax::RedirectModel>,
) -> machine::Config {
    let (assigns, words) = split_words_of(args);
    let d = c.on(assigned(c.st, assigns));
    if words.len() == 0 {
        d.go(machine::ControlModel::Status(0))
    } else if inner_command(words[0], c.st) {
        match redirect::first_output(redirects) {
            Some(r) => d.go(
                machine::ControlModel::Ask(
                    machine::ActionModel::OpenOutput { redirect: r, words },
                ),
            ),
            None => d.go(machine::ControlModel::Invoke(words)),
        }
    } else {
        d.go(
            machine::ControlModel::Ask(
                machine::ActionModel::RunForeground { words, envs: assigns, redirects },
            ),
        )
    }
}

/// A stage of a pipeline whose words are expanded.
pub open spec fn run_stage(
    c: machine::Config,
    s: machine::StagesModel,
    args: Seq<Seq<char>>,
) -> machine::Config {
    let (assigns, words) = split_words_of(args);
    let d = c.on(assigned(c.st, assigns));
    if words.len() == 0 {
        d.go(machine::ControlModel::NextStage)
    } else {
        d.replace(
            machine::FrameModel::Stages(
                machine::StagesModel { texts: s.texts.push(text::joined(words, " "@)), ..s },
            ),
        ).go(
            machine::ControlModel::Ask(
                machine::ActionModel::Spawn {
                    words,
                    envs: assigns,
                    redirects: s.redirects,
                    inner: inner_command(words[0], c.st),
                    last: s.rest.len() == 0,
                    background: s.background,
                },
            ),
        )
    }
}

/// The first word, or the empty text.
pub open spec fn first_word(words: Seq<Seq<char>>) -> Seq<char> {
    if words.len() == 0 {
        Seq::empty()
    } else {
        words[0]
    }
}

/// Expanded words for the frame on top.
pub open spec fn on_words(c: machine::Config, words: Seq<Seq<char>>) -> machine::Config {
    match c.top() {
        Some(machine::FrameModel::Simple { redirects }) => run_simple(c.pop(), words, redirects),
        Some(machine::FrameModel::ForWords { var, body }) => c.replace(
            machine::FrameModel::For { var, items: words, body },
        ).go(machine::ControlModel::Status(0)),
        Some(machine::FrameModel::CaseWord { arms }) => next_arm(
            c.pop(),
            first_word(words),
            arms,
        ),
        Some(machine::FrameModel::CaseArms { subject, body, rest }) => if matches_from(
            words,
            0,
            subject,
        ) {
            c.pop().go(machine::ControlModel::Start(body))
        } else {
            next_arm(c.pop(), subject, rest)
        },
        Some(machine::FrameModel::Stages(s)) => run_stage(c, s, words),
        _ => stuck(c),
    }
}

/// A status for the frame on top.
pub open spec fn on_status(c: machine::Config, s: i32) -> machine::Config {
    match c.top() {
        None => c.go(machine::ControlModel::Over(None)),
        Some(machine::FrameModel::Jobs { rest: _, prev: _ }) => c.on(
            state::StateModel { last_status: s, ..c.st },
        ).go(machine::ControlModel::NextJob),
        Some(machine::FrameModel::If { body, rest, other }) => if s == 0 {
            c.pop().go(machine::ControlModel::Start(body))
        } else {
            next_branch(c.pop(), rest, other)
        },
        Some(machine::FrameModel::For { var, items, body }) => if items.len() == 0 {
            c.pop().go(machine::ControlModel::Status(s))
        } else {
            c.replace(machine::FrameModel::For { var, items: items.skip(1), body }).on(
                state::StateModel { vars: c.st.vars.set(var, items[0]), ..c.st },
            ).go(machine::ControlModel::Start(body))
        },
        Some(machine::FrameModel::WhileCond { cond, body, until, last }) => if (s == 0)
            != until {
            c.replace(machine::FrameModel::WhileBody { cond, body, until }).go(
                machine::ControlModel::Start(body),
            )
        } else {
            c.pop().go(machine::ControlModel::Status(last))
        },
        Some(machine::FrameModel::WhileBody { cond, body, until }) => c.replace(
            machine::FrameModel::WhileCond { cond, body, until, last: s },
        ).go(machine::ControlModel::Start(cond)),
        Some(machine::FrameModel::Call { saved }) => c.pop().on(
            state::StateModel { positional: saved, ..c.st },
        ).go(machine::ControlModel::Status(s)),
        Some(machine::FrameModel::Diverted) => c.pop().go(
            machine::ControlModel::Ask(
                machine::ActionModel::RestoreOutput { result: BuiltinResult::Status(s) },
            ),
        ),
        Some(machine::FrameModel::Capture { saved: _ }) => c.go(
            machine::ControlModel::Ask(machine::ActionModel::EndCapture),
        ),
        _ => stuck(c),
    }
}

/// An exit on its way out: it ends at a command substitution, else with the
/// shell.
pub open spec fn on_exit(c: machine::Config, code: i32) -> machine::Config {
    match c.top() {
        None => c.go(machine::ControlModel::Over(Some(code))),
        Some(machine::FrameModel::Call { saved }) => c.pop().on(
            state::StateModel { positional: saved, ..c.st },
        ).go(machine::ControlModel::Exit(code)),
        Some(machine::FrameModel::Diverted) => c.pop().go(
            machine::ControlModel::Ask(
                machine::ActionModel::RestoreOutput { result: BuiltinResult::Exit(code) },
            ),
        ),
        Some(machine::FrameModel::Capture { saved: _ }) => c.go(
            machine::ControlModel::Ask(machine::ActionModel::EndCapture),
        ),
        Some(_) => c.pop().go(machine::ControlModel::Exit(code)),
    }
}

/// What a builtin came to.
pub open spec fn control_of(r: BuiltinResult) -> machine::ControlModel {
    match r {
        BuiltinResult::Exit(code) => machine::ControlModel::Exit(code),
        BuiltinResult::Status(s) => machine::ControlModel::Status(s),
    }
}

/// A step of a builtin.
pub open spec fn after_builtin(c: machine::Config, step: outside::StepModel) -> machine::Config {
    c.write(step.lines).go(
        match step.next {
            outside::NextModel::Done(r) => control_of(r),
            outside::NextModel::Ask(q) => machine::ControlModel::Ask(
                machine::ActionModel::Builtin(q),
            ),
        },
    )
}

/// A builtin or a function. A function runs with its own positional
/// parameters.
pub open spec fn invoke(c: machine::Config, words: Seq<Seq<char>>) -> machine::Config {
    if words.len() == 0 {
        c.go(machine::ControlModel::Status(1))
    } else if builtins::builtin_name(words[0]) {
        let (step, st) = builtins::builtin_step(words, c.st);
        after_builtin(c.on(st), step)
    } else {
        match table::lookup(c.st.functions, words[0]) {
            Some(body) => c.push(machine::FrameModel::Call { saved: c.st.positional }).on(
                state::StateModel { positional: words.skip(1), ..c.st },
            ).go(machine::ControlModel::Start(body)),
            None => c.go(machine::ControlModel::Status(1)),
        }
    }
}

/// One step of the machine. It does nothing while it waits and when it is
/// over.
pub open spec fn step(c: machine::Config) -> machine::Config {
    match c.control {
        machine::ControlModel::Start(jobs) => c.push(
            machine::FrameModel::Jobs { rest: jobs, prev: Connector::Sequence },
        ).go(machine::ControlModel::NextJob),
        machine::ControlModel::NextJob => match c.top() {
            Some(machine::FrameModel::Jobs { rest, prev }) => next_job(c, rest, prev),
            _ => stuck(c),
        },
        machine::ControlModel::Run(unit) => run_unit_at(c, unit),
        machine::ControlModel::Status(s) => on_status(c, s),
        machine::ControlModel::Exit(code) => on_exit(c, code),
        machine::ControlModel::NextWord => match c.top() {
            Some(machine::FrameModel::Expand(e)) => next_word(c, e),
            _ => stuck(c),
        },
        machine::ControlModel::Resolve => match c.top() {
            Some(machine::FrameModel::Expand(e)) => resolve(c, e),
            _ => stuck(c),
        },
        machine::ControlModel::Output(t) => match c.top() {
            Some(machine::FrameModel::Expand(e)) => take_output(c, e, t),
            _ => stuck(c),
        },
        machine::ControlModel::Words(words) => on_words(c, words),
        machine::ControlModel::Invoke(words) => invoke(c, words),
        machine::ControlModel::NextStage => match c.top() {
            Some(machine::FrameModel::Stages(s)) => next_stage(c, s),
            _ => stuck(c),
        },
        machine::ControlModel::Ask(_) => c,
        machine::ControlModel::Over(_) => c,
    }
}

/// The status of a pipeline: that of its last stage, 1 if a signal ended it.
pub open spec fn pipeline_status(codes: Seq<Option<i32>>) -> i32 {
    if codes.len() == 0 {
        0
    } else {
        match codes.last() {
            Some(code) => code,
            None => 1,
        }
    }
}

/// The state that a command substitution starts with: that of the shell, with
/// the variables as they were when the expansion began.
pub open spec fn subshell(
    st: state::StateModel,
    snapshot: table::Entries<Seq<char>>,
) -> state::StateModel {
    state::StateModel { vars: vars::VarsModel { shell: snapshot, ..st.vars }, ..st }
}

/// The end of a command substitution: the state around it is back, and its
/// output goes on without the newlines at its end.
pub open spec fn end_capture(
    c: machine::Config,
    saved: state::StateModel,
    outcome: Result<Seq<char>, Seq<char>>,
) -> machine::Config {
    let d = c.pop().on(saved);
    match outcome {
        Ok(t) => d.go(machine::ControlModel::Output(without_newlines(t))),
        Err(m) => d.complain("rsh: $(...): "@ + m).go(
            machine::ControlModel::Output(Seq::empty()),
        ),
    }
}

/// What a program in the foreground came to.
pub open spec fn after_foreground(
    c: machine::Config,
    words: Seq<Seq<char>>,
    ran: machine::RanModel,
) -> machine::Config {
    match ran {
        machine::RanModel::Failed(m) => c.complain(
            "rsh: "@ + first_word(words) + ": "@ + m,
        ).go(machine::ControlModel::Status(127)),
        machine::RanModel::Exited(code) => c.go(machine::ControlModel::Status(code)),
        machine::RanModel::Stopped(pid) => c.on(
            listed_stopped(c.st, text::joined(words, " "@), pid),
        ).go(machine::ControlModel::Status(0)),
    }
}

/// How the machine goes on with an answer. One that does not fit what was
/// asked leaves it waiting.
pub open spec fn answered(c: machine::Config, a: machine::AnswerModel) -> machine::Config {
    match (c.control, a) {
        (
            machine::ControlModel::Ask(machine::ActionModel::Builtin(q)),
            machine::AnswerModel::Builtin(r),
        ) => {
            let (step, st) = builtins::builtin_end(q, r, c.st);
            after_builtin(c.on(st), step)
        },
        (
            machine::ControlModel::Ask(machine::ActionModel::Glob { pattern, literal }),
            machine::AnswerModel::Paths(paths),
        ) => match c.top() {
            Some(machine::FrameModel::Expand(e)) => c.replace(
                machine::FrameModel::Expand(
                    machine::ExpandModel {
                        done: e.done + expand::plan_words(
                            expand::PlanModel::Pathname { pattern, literal },
                            paths,
                        ),
                        ..e
                    },
                ),
            ).go(machine::ControlModel::NextWord),
            _ => stuck(c),
        },
        (
            machine::ControlModel::Ask(machine::ActionModel::BeginCapture { jobs }),
            machine::AnswerModel::Began(outcome),
        ) => match (outcome, c.top()) {
            (Ok(_), Some(machine::FrameModel::Expand(e))) => c.push(
                machine::FrameModel::Capture { saved: c.st },
            ).on(subshell(c.st, e.snapshot)).go(machine::ControlModel::Start(jobs)),
            (Err(m), _) => c.complain("rsh: $(...): "@ + m).go(
                machine::ControlModel::Output(Seq::empty()),
            ),
            _ => stuck(c),
        },
        (
            machine::ControlModel::Ask(machine::ActionModel::EndCapture),
            machine::AnswerModel::Captured(outcome),
        ) => match c.top() {
            Some(machine::FrameModel::Capture { saved }) => end_capture(c, saved, outcome),
            _ => stuck(c),
        },
        (
            machine::ControlModel::Ask(machine::ActionModel::OpenOutput { redirect, words }),
            machine::AnswerModel::Opened(outcome),
        ) => match outcome {
            Ok(_) => c.push(machine::FrameModel::Diverted).go(
                machine::ControlModel::Invoke(words),
            ),
            Err(m) => c.complain("rsh: "@ + redirect.target + ": "@ + m).go(
                machine::ControlModel::Status(1),
            ),
        },
        (
            machine::ControlModel::Ask(machine::ActionModel::RestoreOutput { result }),
            machine::AnswerModel::Restored,
        ) => c.go(control_of(result)),
        (
            machine::ControlModel::Ask(
                machine::ActionModel::RunForeground { words, envs: _, redirects: _ },
            ),
            machine::AnswerModel::Ran(ran),
        ) => after_foreground(c, words, ran),
        (
            machine::ControlModel::Ask(
                machine::ActionModel::Spawn {
                    words,
                    envs: _,
                    redirects: _,
                    inner: _,
                    last: _,
                    background: _,
                },
            ),
            machine::AnswerModel::Spawned(outcome),
        ) => match c.top() {
            Some(machine::FrameModel::Stages(s)) => match outcome {
                Ok(pid) => c.replace(
                    machine::FrameModel::Stages(
                        machine::StagesModel { pids: s.pids.push(pid), ..s },
                    ),
                ).go(machine::ControlModel::NextStage),
                Err(m) => c.pop().complain("rsh: "@ + first_word(words) + ": "@ + m).go(
                    machine::ControlModel::Status(127),
                ),
            },
            _ => stuck(c),
        },
        (
            machine::ControlModel::Ask(machine::ActionModel::WaitStages { pids: _ }),
            machine::AnswerModel::Codes(codes),
        ) => c.go(machine::ControlModel::Status(pipeline_status(codes))),
        _ => c,
    }
}

/// The machine waits for an answer or is over.
pub open spec fn resting(c: machine::Config) -> bool {
    c.control is Ask || c.control is Over
}

/// The machine after at most `n` steps: it stops where it has to wait.
pub open spec fn after_steps(c: machine::Config, n: nat) -> machine::Config
    decreases n,
{
    if n == 0 || resting(c) {
        c
    } else {
        after_steps(step(c), (n - 1) as nat)
    }
}

// ---------------------------------------------------------------------------
// The steps.
// ---------------------------------------------------------------------------

proof fn lemma_put_back(frames: Seq<machine::FrameModel>)
    ensures
        frames.len() > 0 ==> frames.drop_last().push(frames.last()) == frames,
{
    if frames.len() > 0 {
        assert(frames.drop_last().push(frames.last()) =~= frames);
    }
}

/// Comes to rest where nothing fits.
fn halt(m: &mut Machine, top: Option<Frame>)
    ensures
        final(m).control.model() == machine::ControlModel::Over(None),
        final(m).lines == old(m).lines,
        machine::frame_models(final(m).frames@) == match top {
            Some(f) => machine::frame_models(old(m).frames@).push(f.model()),
            None => machine::frame_models(old(m).frames@),
        },
{
    match top {
        Some(f) => {
            m.push_frame(f);
        },
        None => {},
    }
    m.control = Control::Over(None);
}

/// Writes a diagnostic.
fn note(m: &mut Machine, t: String)
    ensures
        final(m).control == old(m).control,
        final(m).frames == old(m).frames,
        report::line_models(final(m).lines@) == report::line_models(old(m).lines@).push(
            report::complained(t@),
        ),
{
    complain(&mut m.lines, t);
}

/// Takes the first job of a list.
fn first_job(rest: &mut Vec<Job>) -> (r: Job)
    requires
        old(rest)@.len() > 0,
    ensures
        r.model() == syntax::job_models(old(rest)@)[0],
        syntax::job_models(final(rest)@) == syntax::job_models(old(rest)@).skip(1),
{
    let ghost before = syntax::job_models(rest@);
    let r = rest.remove(0);
    assert(syntax::job_models(rest@) =~= before.skip(1));
    r
}

fn do_next_job(m: &mut Machine, state: &ShellState)
    ensures
        machine::config(final(m), state) == step(
            machine::config(old(m), state).go(machine::ControlModel::NextJob),
        ),
{
    let top = m.pop_frame();
    match top {
        Some(Frame::Jobs { rest, prev }) => {
            let mut rest = rest;
            if rest.len() == 0 {
                assert(syntax::job_models(rest@).len() == 0);
                m.control = Control::Status(state.last_status);
            } else {
                let runs = match prev {
                    Connector::And => state.last_status == 0,
                    Connector::Or => state.last_status != 0,
                    Connector::Sequence => true,
                };
                let job = first_job(&mut rest);
                m.push_frame(Frame::Jobs { rest, prev: job.connector });
                if runs {
                    m.control = Control::Run(job.unit);
                } else {
                    m.control = Control::NextJob;
                }
            }
        },
        other => {
            proof {
                lemma_put_back(machine::frame_models(old(m).frames@));
            }
            halt(m, other);
        },
    }
}

/// Begins to expand words with the current state.
fn expand_current(m: &mut Machine, state: &ShellState, words: Vec<String>, patterns: bool)
    ensures
        machine::config(final(m), state) == begin_expand(
            machine::config(old(m), state),
            text::texts(words@),
            patterns,
        ),
{
    let none: Vec<String> = Vec::new();
    let pending: Vec<String> = Vec::new();
    let outputs: Vec<String> = Vec::new();
    assert(text::texts(none@) =~= Seq::empty());
    m.push_frame(
        Frame::Expand {
            words,
            done: none,
            command: false,
            patterns,
            snapshot: copy_table(&state.vars.shell),
            pending,
            outputs,
        },
    );
    m.control = Control::NextWord;
}

/// Takes the first of some texts.
fn first_text(v: &mut Vec<String>) -> (r: String)
    requires
        old(v)@.len() > 0,
    ensures
        r@ == text::texts(old(v)@)[0],
        text::texts(final(v)@) == text::texts(old(v)@).skip(1),
{
    let ghost before = text::texts(v@);
    let r = v.remove(0);
    assert(text::texts(v@) =~= before.skip(1));
    r
}

fn do_next_word(m: &mut Machine, state: &ShellState)
    ensures
        machine::config(final(m), state) == step(
            machine::config(old(m), state).go(machine::ControlModel::NextWord),
        ),
{
    let top = m.pop_frame();
    match top {
        Some(Frame::Expand { words, done, command, patterns, snapshot, pending: _, outputs: _ }) => {
            assert(text::texts(words@).len() == words@.len());
            if words.len() == 0 {
                m.control = Control::Words(done);
            } else {
                let pending = command_substs(words[0].as_str());
                let outputs: Vec<String> = Vec::new();
                assert(text::texts(outputs@) =~= Seq::empty());
                m.push_frame(
                    Frame::Expand { words, done, command, patterns, snapshot, pending, outputs },
                );
                m.control = Control::Resolve;
            }
        },
        other => {
            proof {
                lemma_put_back(machine::frame_models(old(m).frames@));
            }
            halt(m, other);
        },
    }
}

/// Turns the diagnostics that an expansion left behind into lines.
fn flush_notices(m: &mut Machine, state: &mut ShellState)
    ensures
        final(m).control == old(m).control,
        final(m).frames == old(m).frames,
        report::line_models(final(m).lines@) == report::line_models(old(m).lines@)
            + notice_lines(old(state).model().vars.notices),
        final(state).model() == (state::StateModel {
            vars: vars::VarsModel { notices: Seq::empty(), ..old(state).model().vars },
            ..old(state).model()
        }),
{
    let ghost before = report::line_models(m.lines@);
    let ghost all = state.model().vars.notices;
    let ghost st = state.model();
    let mut i: usize = 0;
    assert(notice_lines(all).take(0) =~= Seq::empty());
    while i < state.vars.notices.len()
        invariant
            i <= state.vars.notices@.len(),
            state.model() == st,
            all == st.vars.notices,
            m.control == old(m).control,
            m.frames == old(m).frames,
            report::line_models(m.lines@) =~= before + notice_lines(all).take(i as int),
        decreases state.vars.notices@.len() - i,
    {
        assert(all[i as int] == state.vars.notices@[i as int]@);
        note(m, state.vars.notices[i].clone());
        i += 1;
        assert(notice_lines(all).take(i as int) =~= notice_lines(all).take(i - 1).push(
            notice_lines(all)[i - 1],
        ));
    }
    assert(notice_lines(all).take(i as int) =~= notice_lines(all));
    state.vars.notices = Vec::new();
    assert(state.model().vars.notices =~= Seq::empty());
}

/// Adds texts behind others.
fn append_texts(v: &mut Vec<String>, more: Vec<String>)
    ensures
        text::texts(final(v)@) == text::texts(old(v)@) + text::texts(more@),
{
    let ghost before = text::texts(v@);
    let ghost added = text::texts(more@);
    let mut rest = more;
    v.append(&mut rest);
    assert(text::texts(v@) =~= before + added);
}

fn do_resolve(m: &mut Machine, state: &mut ShellState)
    ensures
        machine::config(final(m), final(state)) == step(
            machine::config(old(m), old(state)).go(machine::ControlModel::Resolve),
        ),
{
    let top = m.pop_frame();
    match top {
        Some(Frame::Expand { words, done, command, patterns, snapshot, pending, outputs }) => {
            let mut words = words;
            let mut done = done;
            let mut pending = pending;
            assert(text::texts(words@).len() == words@.len());
            assert(text::texts(pending@).len() == pending@.len());
            if pending.len() > 0 {
                let inner = first_text(&mut pending);
                m.push_frame(
                    Frame::Expand { words, done, command, patterns, snapshot, pending, outputs },
                );
                match read_program(inner.as_str()) {
                    Ok(jobs) => {
                        m.control = Control::Ask(Action::BeginCapture { jobs });
                    },
                    Err(e) => {
                        note(m, concat("rsh: $(...): ", e.as_str()));
                        m.control = Control::Output(String::new());
                        assert(m.control.model() =~= machine::ControlModel::Output(
                            Seq::empty(),
                        ));
                    },
                }
            } else if words.len() == 0 {
                proof {
                    lemma_put_back(machine::frame_models(old(m).frames@));
                }
                halt(
                    m,
                    Some(
                        Frame::Expand { words, done, command, patterns, snapshot, pending, outputs },
                    ),
                );
            } else {
                let word = first_text(&mut words);
                let status: i32 = state.last_status;
                if patterns {
                    let (found, seen) = expand_pattern(
                        word.as_str(),
                        &outputs,
                        &mut state.vars,
                        &state.positional,
                        status,
                        command,
                    );
                    append_texts(&mut done, found);
                    flush_notices(m, state);
                    m.push_frame(
                        Frame::Expand {
                            words,
                            done,
                            command: seen,
                            patterns,
                            snapshot,
                            pending,
                            outputs,
                        },
                    );
                    m.control = Control::NextWord;
                } else {
                    let plan = expand_word(
                        word.as_str(),
                        &outputs,
                        &mut state.vars,
                        &state.positional,
                        status,
                        command,
                    );
                    flush_notices(m, state);
                    let seen = command || !matches!(plan, WordPlan::Assignment(_));
                    match plan {
                        WordPlan::Pathname { pattern, literal } => {
                            m.push_frame(
                                Frame::Expand {
                                    words,
                                    done,
                                    command: seen,
                                    patterns,
                                    snapshot,
                                    pending,
                                    outputs,
                                },
                            );
                            m.control = Control::Ask(Action::Glob { pattern, literal });
                        },
                        plan => {
                            let none: Vec<String> = Vec::new();
                            assert(text::texts(none@) =~= Seq::empty());
                            finish_word(&mut done, plan, &none);
                            m.push_frame(
                                Frame::Expand {
                                    words,
                                    done,
                                    command: seen,
                                    patterns,
                                    snapshot,
                                    pending,
                                    outputs,
                                },
                            );
                            m.control = Control::NextWord;
                        },
                    }
                }
            }
        },
        other => {
            proof {
                lemma_put_back(machine::frame_models(old(m).frames@));
            }
            halt(m, other);
        },
    }
}

fn do_output(m: &mut Machine, state: &ShellState, t: String)
    ensures
        machine::config(final(m), state) == step(
            machine::config(old(m), state).go(machine::ControlModel::Output(t@)),
        ),
{
    let top = m.pop_frame();
    match top {
        Some(Frame::Expand { words, done, command, patterns, snapshot, pending, outputs }) => {
            let mut outputs = outputs;
            let ghost before = text::texts(outputs@);
            let ghost last = t@;
            outputs.push(t);
            assert(text::texts(outputs@) =~= before.push(last));
            m.push_frame(
                Frame::Expand { words, done, command, patterns, snapshot, pending, outputs },
            );
            m.control = Control::Resolve;
        },
        other => {
            proof {
                lemma_put_back(machine::frame_models(old(m).frames@));
            }
            halt(m, other);
        },
    }
}

/// Goes on with the next branch of an `if`, else with its `else`.
fn run_if(
    m: &mut Machine,
    state: &ShellState,
    branches: Vec<(Vec<Job>, Vec<Job>)>,
    other: Option<Vec<Job>>,
)
    ensures
        machine::config(final(m), state) == next_branch(
            machine::config(old(m), state),
            syntax::branch_models(branches@),
            match other {
                Some(b) => Some(syntax::job_models(b@)),
                None => None,
            },
        ),
{
    let mut branches = branches;
    let ghost all = syntax::branch_models(branches@);
    assert(all.len() == branches@.len());
    if branches.len() > 0 {
        let (cond, body) = branches.remove(0);
        assert(syntax::branch_models(branches@) =~= all.skip(1));
        assert(all[0] == (syntax::job_models(cond@), syntax::job_models(body@)));
        m.push_frame(Frame::If { body, rest: branches, other });
        m.control = Control::Start(cond);
    } else {
        match other {
            Some(b) => {
                m.control = Control::Start(b);
            },
            None => {
                m.control = Control::Status(0);
            },
        }
    }
}

/// Goes on with the next arm of a `case`.
fn run_case(m: &mut Machine, state: &ShellState, subject: String, arms: Vec<CaseArm>)
    ensures
        machine::config(final(m), state) == next_arm(
            machine::config(old(m), state),
            subject@,
            syntax::arm_models(arms@),
        ),
{
    let mut arms = arms;
    let ghost all = syntax::arm_models(arms@);
    assert(all.len() == arms@.len());
    if arms.len() == 0 {
        m.control = Control::Status(0);
    } else {
        let arm = arms.remove(0);
        assert(syntax::arm_models(arms@) =~= all.skip(1));
        assert(all[0] == arm.model());
        m.push_frame(Frame::CaseArms { subject, body: arm.body, rest: arms });
        expand_current(m, state, arm.patterns, true);
    }
}

/// Whether a command is a builtin or a function.
fn is_inner(name: &str, state: &ShellState) -> (r: bool)
    ensures
        r == inner_command(name@, state.model()),
{
    is_builtin(name) || state.functions.contains_key(name)
}

/// Goes on with a single command whose words are expanded.
fn run_command(
    m: &mut Machine,
    state: &mut ShellState,
    args: Vec<String>,
    redirects: Vec<Redirect>,
)
    ensures
        machine::config(final(m), final(state)) == run_simple(
            machine::config(old(m), old(state)),
            text::texts(args@),
            syntax::redirect_models(redirects@),
        ),
{
    let (assigns, words) = split_assignments(&args);
    apply_assignments(&assigns, &mut state.vars);
    assert(text::texts(words@).len() == words@.len());
    if words.len() == 0 {
        m.control = Control::Status(0);
    } else {
        assert(text::texts(words@)[0] == words@[0]@);
        if is_inner(words[0].as_str(), state) {
            match output_redirect(&redirects) {
                Some(redirect) => {
                    m.control = Control::Ask(Action::OpenOutput { redirect, words });
                },
                None => {
                    m.control = Control::Invoke(words);
                },
            }
        } else {
            m.control = Control::Ask(Action::RunForeground { words, envs: assigns, redirects });
        }
    }
}

fn do_words(m: &mut Machine, state: &mut ShellState, words: Vec<String>)
    ensures
        machine::config(final(m), final(state)) == step(
            machine::config(old(m), old(state)).go(
                machine::ControlModel::Words(text::texts(words@)),
            ),
        ),
{
    let top = m.pop_frame();
    match top {
        Some(Frame::Simple { redirects }) => {
            run_command(m, state, words, redirects);
        },
        Some(Frame::ForWords { var, body }) => {
            m.push_frame(Frame::For { var, items: words, body });
            m.control = Control::Status(0);
        },
        Some(Frame::CaseWord { arms }) => {
            assert(text::texts(words@).len() == words@.len());
            let subject = if words.len() == 0 {
                String::new()
            } else {
                words[0].clone()
            };
            assert(subject@ =~= first_word(text::texts(words@)));
            run_case(m, state, subject, arms);
        },
        Some(Frame::CaseArms { subject, body, rest }) => {
            if any_matches(&words, subject.as_str()) {
                m.control = Control::Start(body);
            } else {
                run_case(m, state, subject, rest);
            }
        },
        Some(Frame::Stages { redirects, rest, background, pids, texts }) => {
            let mut texts = texts;
            let (assigns, words) = split_assignments(&words);
            apply_assignments(&assigns, &mut state.vars);
            assert(text::texts(words@).len() == words@.len());
            assert(syntax::simple_models(rest@).len() == rest@.len());
            if words.len() == 0 {
                proof {
                    lemma_put_back(machine::frame_models(old(m).frames@));
                }
                m.push_frame(Frame::Stages { redirects, rest, background, pids, texts });
                m.control = Control::NextStage;
            } else {
                assert(text::texts(words@)[0] == words@[0]@);
                let ghost before = text::texts(texts@);
                let line = join(&words, " ");
                let ghost l = line@;
                texts.push(line);
                assert(text::texts(texts@) =~= before.push(l));
                let inner = is_inner(words[0].as_str(), state);
                let last = rest.len() == 0;
                let own = copy_redirects(&redirects);
                m.push_frame(Frame::Stages { redirects, rest, background, pids, texts });
                m.control = Control::Ask(
                    Action::Spawn {
                        words,
                        envs: assigns,
                        redirects: own,
                        inner,
                        last,
                        background,
                    },
                );
            }
        },
        other => {
            proof {
                lemma_put_back(machine::frame_models(old(m).frames@));
            }
            halt(m, other);
        },
    }
}

/// Goes on with a `for`, or ends it with the status of its body.
fn run_for(
    m: &mut Machine,
    state: &mut ShellState,
    var: String,
    items: Vec<String>,
    body: Vec<Job>,
    status: i32,
)
    ensures
        machine::config(final(m), final(state)) == on_status(
            machine::config(old(m), old(state)).push(
                machine::FrameModel::For {
                    var: var@,
                    items: text::texts(items@),
                    body: syntax::job_models(body@),
                },
            ),
            status,
        ),
{
    let mut items = items;
    proof {
        let ghost frames = machine::frame_models(m.frames@);
        let ghost f = machine::FrameModel::For {
            var: var@,
            items: text::texts(items@),
            body: syntax::job_models(body@),
        };
        assert(frames.push(f).drop_last() =~= frames);
    }
    assert(text::texts(items@).len() == items@.len());
    if items.len() == 0 {
        m.control = Control::Status(status);
    } else {
        let item = first_text(&mut items);
        state.vars.insert(var.clone(), item);
        let again = copy_jobs(&body);
        m.push_frame(Frame::For { var, items, body });
        m.control = Control::Start(again);
    }
}

/// Goes on with a loop whose condition came to a status.
fn run_while(
    m: &mut Machine,
    state: &ShellState,
    cond: Vec<Job>,
    body: Vec<Job>,
    until: bool,
    last: i32,
    status: i32,
)
    ensures
        machine::config(final(m), state) == on_status(
            machine::config(old(m), state).push(
                machine::FrameModel::WhileCond {
                    cond: syntax::job_models(cond@),
                    body: syntax::job_models(body@),
                    until,
                    last,
                },
            ),
            status,
        ),
{
    proof {
        let ghost frames = machine::frame_models(m.frames@);
        let ghost f = machine::FrameModel::WhileCond {
            cond: syntax::job_models(cond@),
            body: syntax::job_models(body@),
            until,
            last,
        };
        assert(frames.push(f).drop_last() =~= frames);
    }
    let goes_on = if until {
        status != 0
    } else {
        status == 0
    };
    if goes_on {
        let again = copy_jobs(&body);
        m.push_frame(Frame::WhileBody { cond, body, until });
        m.control = Control::Start(again);
    } else {
        m.control = Control::Status(last);
    }
}

fn do_status(m: &mut Machine, state: &mut ShellState, s: i32)
    ensures
        machine::config(final(m), final(state)) == step(
            machine::config(old(m), old(state)).go(machine::ControlModel::Status(s)),
        ),
{
    proof {
        lemma_put_back(machine::frame_models(m.frames@));
    }
    let top = m.pop_frame();
    match top {
        None => {
            m.control = Control::Over(None);
        },
        Some(Frame::Jobs { rest, prev }) => {
            state.last_status = s;
            m.push_frame(Frame::Jobs { rest, prev });
            m.control = Control::NextJob;
        },
        Some(Frame::If { body, rest, other }) => {
            if s == 0 {
                m.control = Control::Start(body);
            } else {
                run_if(m, state, rest, other);
            }
        },
        Some(Frame::For { var, items, body }) => {
            run_for(m, state, var, items, body, s);
        },
        Some(Frame::WhileCond { cond, body, until, last }) => {
            run_while(m, state, cond, body, until, last, s);
        },
        Some(Frame::WhileBody { cond, body, until }) => {
            let again = copy_jobs(&cond);
            m.push_frame(Frame::WhileCond { cond, body, until, last: s });
            m.control = Control::Start(again);
        },
        Some(Frame::Call { saved }) => {
            state.positional = saved;
            m.control = Control::Status(s);
        },
        Some(Frame::Diverted) => {
            m.control = Control::Ask(
                Action::RestoreOutput { result: BuiltinResult::Status(s) },
            );
        },
        Some(Frame::Capture { saved }) => {
            m.push_frame(Frame::Capture { saved });
            m.control = Control::Ask(Action::EndCapture);
        },
        other => {
            halt(m, other);
        },
    }
}

fn do_exit(m: &mut Machine, state: &mut ShellState, code: i32)
    ensures
        machine::config(final(m), final(state)) == step(
            machine::config(old(m), old(state)).go(machine::ControlModel::Exit(code)),
        ),
{
    proof {
        lemma_put_back(machine::frame_models(m.frames@));
    }
    let top = m.pop_frame();
    match top {
        None => {
            m.control = Control::Over(Some(code));
        },
        Some(Frame::Call { saved }) => {
            state.positional = saved;
            m.control = Control::Exit(code);
        },
        Some(Frame::Diverted) => {
            m.control = Control::Ask(
                Action::RestoreOutput { result: BuiltinResult::Exit(code) },
            );
        },
        Some(Frame::Capture { saved }) => {
            m.push_frame(Frame::Capture { saved });
            m.control = Control::Ask(Action::EndCapture);
        },
        Some(_) => {
            m.control = Control::Exit(code);
        },
    }
}

fn control_after(r: BuiltinResult) -> (c: Control)
    ensures
        c.model() == control_of(r),
{
    match r {
        BuiltinResult::Exit(code) => Control::Exit(code),
        BuiltinResult::Status(s) => Control::Status(s),
    }
}

fn take_step(m: &mut Machine, state: &ShellState, step: Step)
    ensures
        machine::config(final(m), state) == after_builtin(
            machine::config(old(m), state),
            step.model(),
        ),
{
    add_lines(&mut m.lines, step.lines);
    m.control = match step.next {
        Next::Done(r) => control_after(r),
        Next::Ask(q) => Control::Ask(Action::Builtin(q)),
    };
}

fn do_invoke(m: &mut Machine, state: &mut ShellState, words: Vec<String>)
    ensures
        machine::config(final(m), final(state)) == step(
            machine::config(old(m), old(state)).go(
                machine::ControlModel::Invoke(text::texts(words@)),
            ),
        ),
{
    assert(text::texts(words@).len() == words@.len());
    if words.len() == 0 {
        m.control = Control::Status(1);
        return ;
    }
    assert(text::texts(words@)[0] == words@[0]@);
    match run_builtin(&words, state) {
        Some(first) => {
            take_step(m, state, first);
        },
        None => {
            let body = match state.functions.get(words[0].as_str()) {
                Some(body) => {
                    proof {
                        syntax::lemma_jobs_view(*body);
                    }
                    Some(copy_jobs(body))
                },
                None => None,
            };
            match body {
                Some(jobs) => {
                    let mut params = texts_from(&words, 1);
                    std::mem::swap(&mut params, &mut state.positional);
                    m.push_frame(Frame::Call { saved: params });
                    m.control = Control::Start(jobs);
                },
                None => {
                    m.control = Control::Status(1);
                },
            }
        },
    }
}

/// Takes the first command of a pipeline.
fn first_command(rest: &mut Vec<SimpleCommand>) -> (r: SimpleCommand)
    requires
        old(rest)@.len() > 0,
    ensures
        r.model() == syntax::simple_models(old(rest)@)[0],
        syntax::simple_models(final(rest)@) == syntax::simple_models(old(rest)@).skip(1),
{
    let ghost before = syntax::simple_models(rest@);
    let r = rest.remove(0);
    assert(syntax::simple_models(rest@) =~= before.skip(1));
    r
}

fn do_next_stage(m: &mut Machine, state: &mut ShellState)
    ensures
        machine::config(final(m), final(state)) == step(
            machine::config(old(m), old(state)).go(machine::ControlModel::NextStage),
        ),
{
    let top = m.pop_frame();
    match top {
        Some(Frame::Stages { redirects: _, rest, background, pids, texts }) => {
            let mut rest = rest;
            assert(syntax::simple_models(rest@).len() == rest@.len());
            if rest.len() > 0 {
                let cmd = first_command(&mut rest);
                let resolved = resolve_alias(&cmd, state);
                let redirects = plain_redirects(&resolved.redirects);
                m.push_frame(Frame::Stages { redirects, rest, background, pids, texts });
                expand_current(m, state, resolved.args, false);
            } else if pids.len() == 0 {
                m.control = Control::Status(0);
            } else if background {
                let pid: i32 = pids[pids.len() - 1];
                let ghost lines = report::line_models(m.lines@);
                say(&mut m.lines, concat("[bg] pid ", i64_text(pid as i64).as_str()));
                assert(report::line_models(m.lines@) =~= lines + seq![
                    report::said("[bg] pid "@ + text::decimal_int(pid as int)),
                ]);
                if state.next_job_id < usize::MAX {
                    state.add_job(join(&texts, " | "), pid);
                }
                m.control = Control::Status(0);
            } else {
                m.control = Control::Ask(Action::WaitStages { pids });
            }
        },
        other => {
            proof {
                lemma_put_back(machine::frame_models(old(m).frames@));
            }
            halt(m, other);
        },
    }
}

/// Begins a pipeline.
fn run_pipeline(m: &mut Machine, state: &ShellState, p: Pipeline)
    ensures
        machine::config(final(m), state) == run_pipeline_at(
            machine::config(old(m), state),
            p.model(),
        ),
{
    assert(p.model().commands.len() == p.commands@.len());
    if p.commands.len() == 1 && !p.background {
        assert(p.model().commands[0] == p.commands@[0].model());
        let cmd = resolve_alias(&p.commands[0], state);
        m.push_frame(Frame::Simple { redirects: plain_redirects(&cmd.redirects) });
        expand_current(m, state, cmd.args, false);
    } else {
        let redirects: Vec<Redirect> = Vec::new();
        let pids: Vec<i32> = Vec::new();
        let texts: Vec<String> = Vec::new();
        assert(syntax::redirect_models(redirects@) =~= Seq::empty());
        assert(text::texts(texts@) =~= Seq::empty());
        m.push_frame(
            Frame::Stages {
                redirects,
                rest: p.commands,
                background: p.background,
                pids,
                texts,
            },
        );
        m.control = Control::NextStage;
    }
}

/// Begins a compound command.
fn run_compound(m: &mut Machine, state: &mut ShellState, cmd: CompoundCommand)
    ensures
        machine::config(final(m), final(state)) == run_compound_at(
            machine::config(old(m), old(state)),
            cmd.model(),
        ),
{
    match cmd {
        CompoundCommand::If(chain) => {
            let IfChain { branches, else_body } = chain;
            run_if(m, state, branches, else_body);
        },
        CompoundCommand::For { var, words, body } => {
            m.push_frame(Frame::ForWords { var, body });
            expand_current(m, state, words, false);
        },
        CompoundCommand::While { cond, body, until } => {
            let first = copy_jobs(&cond);
            m.push_frame(Frame::WhileCond { cond, body, until, last: 0 });
            m.control = Control::Start(first);
        },
        CompoundCommand::Case { word, arms } => {
            let mut words: Vec<String> = Vec::new();
            let ghost w = word@;
            words.push(word);
            assert(text::texts(words@) =~= seq![w]);
            m.push_frame(Frame::CaseWord { arms });
            expand_current(m, state, words, false);
        },
        CompoundCommand::FunctionDef { name, body } => {
            proof {
                syntax::lemma_jobs_view(body);
            }
            state.functions.insert(name, body);
            m.control = Control::Status(0);
        },
    }
}

/// Begins a unit.
fn run_unit(m: &mut Machine, state: &mut ShellState, unit: Unit)
    ensures
        machine::config(final(m), final(state)) == run_unit_at(
            machine::config(old(m), old(state)),
            unit.model(),
        ),
{
    match unit {
        Unit::Pipeline(p) => {
            run_pipeline(m, state, p);
        },
        Unit::Compound(cmd) => {
            run_compound(m, state, cmd);
        },
        Unit::Group(jobs) => {
            m.control = Control::Start(jobs);
        },
    }
}

/// The beginning of a run of a list of jobs.
pub open spec fn started(
    jobs: Seq<syntax::JobModel>,
    st: state::StateModel,
) -> machine::Config {
    machine::Config {
        control: machine::ControlModel::Start(jobs),
        frames: Seq::empty(),
        lines: Seq::empty(),
        st,
    }
}

/// The beginning of a run of a builtin or a function in a process of its own.
pub open spec fn stage_started(words: Seq<Seq<char>>, st: state::StateModel) -> machine::Config {
    machine::Config {
        control: machine::ControlModel::Invoke(words),
        frames: seq![
            machine::FrameModel::Jobs { rest: Seq::empty(), prev: Connector::Sequence },
        ],
        lines: Seq::empty(),
        st,
    }
}

impl Machine {
    /// A machine that is about to run a list of jobs.
    pub fn new(jobs: Vec<Job>) -> (r: Machine)
        ensures
            forall|st: &ShellState| #[trigger]
                machine::config(&r, st) == started(syntax::job_models(jobs@), st.model()),
            r.control.model() == machine::ControlModel::Start(syntax::job_models(jobs@)),
            machine::frame_models(r.frames@) == Seq::<machine::FrameModel>::empty(),
            report::line_models(r.lines@) == Seq::<report::LineModel>::empty(),
    {
        let frames: Vec<Frame> = Vec::new();
        assert(machine::frame_models(frames@) =~= Seq::empty());
        Machine { control: Control::Start(jobs), frames, lines: no_lines() }
    }

    /// A machine that is about to run a builtin or a function, as a stage of a
    /// pipeline does in its own process. Its status becomes the last one.
    pub fn for_stage(words: Vec<String>) -> (r: Machine)
        ensures
            forall|st: &ShellState| #[trigger]
                machine::config(&r, st) == stage_started(text::texts(words@), st.model()),
            r.control.model() == machine::ControlModel::Invoke(text::texts(words@)),
            machine::frame_models(r.frames@) == seq![
                machine::FrameModel::Jobs { rest: Seq::empty(), prev: Connector::Sequence },
            ],
            report::line_models(r.lines@) == Seq::<report::LineModel>::empty(),
    {
        let mut frames: Vec<Frame> = Vec::new();
        let rest: Vec<Job> = Vec::new();
        assert(syntax::job_models(rest@) =~= Seq::empty());
        frames.push(Frame::Jobs { rest, prev: Connector::Sequence });
        assert(machine::frame_models(frames@) =~= seq![
            machine::FrameModel::Jobs { rest: Seq::empty(), prev: Connector::Sequence },
        ]);
        Machine { control: Control::Invoke(words), frames, lines: no_lines() }
    }

    /// Does one step.
    pub fn step(&mut self, state: &mut ShellState)
        ensures
            machine::config(final(self), final(state)) == step(
                machine::config(old(self), old(state)),
            ),
    {
        let mut control = Control::NextJob;
        std::mem::swap(&mut control, &mut self.control);
        match control {
            Control::Start(jobs) => {
                self.push_frame(Frame::Jobs { rest: jobs, prev: Connector::Sequence });
                self.control = Control::NextJob;
            },
            Control::NextJob => {
                do_next_job(self, state);
            },
            Control::Run(unit) => {
                run_unit(self, state, unit);
            },
            Control::Status(s) => {
                do_status(self, state, s);
            },
            Control::Exit(code) => {
                do_exit(self, state, code);
            },
            Control::NextWord => {
                do_next_word(self, state);
            },
            Control::Resolve => {
                do_resolve(self, state);
            },
            Control::Output(t) => {
                do_output(self, state, t);
            },
            Control::Words(words) => {
                do_words(self, state, words);
            },
            Control::Invoke(words) => {
                do_invoke(self, state, words);
            },
            Control::NextStage => {
                do_next_stage(self, state);
            },
            Control::Ask(action) => {
                self.control = Control::Ask(action);
            },
            Control::Over(r) => {
                self.control = Control::Over(r);
            },
        }
    }
}

/// Goes on with the paths that match a pattern.
fn answer_paths(
    m: &mut Machine,
    state: &ShellState,
    pattern: String,
    literal: String,
    paths: Vec<String>,
)
    ensures
        machine::config(final(m), state) == answered(
            machine::config(old(m), state).go(
                machine::ControlModel::Ask(
                    machine::ActionModel::Glob { pattern: pattern@, literal: literal@ },
                ),
            ),
            machine::AnswerModel::Paths(text::texts(paths@)),
        ),
{
    let top = m.pop_frame();
    match top {
        Some(Frame::Expand { words, done, command, patterns, snapshot, pending, outputs }) => {
            let mut done = done;
            finish_word(&mut done, WordPlan::Pathname { pattern, literal }, &paths);
            m.push_frame(
                Frame::Expand { words, done, command, patterns, snapshot, pending, outputs },
            );
            m.control = Control::NextWord;
        },
        other => {
            proof {
                lemma_put_back(machine::frame_models(old(m).frames@));
            }
            halt(m, other);
        },
    }
}

/// Goes on with a command substitution: its jobs run on a copy of the state.
fn answer_began(m: &mut Machine, state: &mut ShellState, jobs: Vec<Job>, outcome: Result<(), String>)
    ensures
        machine::config(final(m), final(state)) == answered(
            machine::config(old(m), old(state)).go(
                machine::ControlModel::Ask(
                    machine::ActionModel::BeginCapture { jobs: syntax::job_models(jobs@) },
                ),
            ),
            machine::AnswerModel::Began(machine::unit_outcome(outcome)),
        ),
{
    proof {
        lemma_put_back(machine::frame_models(m.frames@));
    }
    match outcome {
        Err(e) => {
            note(m, concat("rsh: $(...): ", e.as_str()));
            m.control = Control::Output(String::new());
            assert(m.control.model() =~= machine::ControlModel::Output(Seq::empty()));
        },
        Ok(_) => {
            let top = m.pop_frame();
            match top {
                Some(
                    Frame::Expand { words, done, command, patterns, snapshot, pending, outputs },
                ) => {
                    let mut child = state.copy();
                    child.vars.shell = copy_table(&snapshot);
                    std::mem::swap(&mut child, state);
                    m.push_frame(
                        Frame::Expand {
                            words,
                            done,
                            command,
                            patterns,
                            snapshot,
                            pending,
                            outputs,
                        },
                    );
                    m.push_frame(Frame::Capture { saved: child });
                    m.control = Control::Start(jobs);
                },
                other => {
                    halt(m, other);
                },
            }
        },
    }
}

/// Ends a command substitution: the state around it is back.
fn answer_captured(m: &mut Machine, state: &mut ShellState, outcome: Result<String, String>)
    ensures
        machine::config(final(m), final(state)) == answered(
            machine::config(old(m), old(state)).go(
                machine::ControlModel::Ask(machine::ActionModel::EndCapture),
            ),
            machine::AnswerModel::Captured(
                match outcome {
                    Ok(t) => Ok(t@),
                    Err(e) => Err(e@),
                },
            ),
        ),
{
    proof {
        lemma_put_back(machine::frame_models(m.frames@));
    }
    let top = m.pop_frame();
    match top {
        Some(Frame::Capture { saved }) => {
            *state = saved;
            match outcome {
                Ok(t) => {
                    m.control = Control::Output(trim_newlines(t.as_str()));
                },
                Err(e) => {
                    note(m, concat("rsh: $(...): ", e.as_str()));
                    m.control = Control::Output(String::new());
                    assert(m.control.model() =~= machine::ControlModel::Output(Seq::empty()));
                },
            }
        },
        other => {
            halt(m, other);
        },
    }
}

/// The diagnostic for a command that could not be started.
fn failure_text(words: &[String], e: &str) -> (r: String)
    ensures
        r@ == "rsh: "@ + first_word(text::texts(words@)) + ": "@ + e@,
{
    assert(text::texts(words@).len() == words@.len());
    let name = if words.len() == 0 {
        String::new()
    } else {
        words[0].clone()
    };
    assert(name@ =~= first_word(text::texts(words@)));
    let begin = concat3("rsh: ", name.as_str(), ": ");
    concat(begin.as_str(), e)
}

/// Goes on with what a program in the foreground came to.
fn answer_ran(m: &mut Machine, state: &mut ShellState, words: Vec<String>, ran: Ran)
    ensures
        machine::config(final(m), final(state)) == after_foreground(
            machine::config(old(m), old(state)),
            text::texts(words@),
            ran.model(),
        ),
{
    match ran {
        Ran::Failed(e) => {
            note(m, failure_text(&words, e.as_str()));
            m.control = Control::Status(127);
        },
        Ran::Exited(code) => {
            m.control = Control::Status(code);
        },
        Ran::Stopped(pid) => {
            if state.next_job_id < usize::MAX {
                state.add_stopped_job(join(&words, " "), pid);
            }
            m.control = Control::Status(0);
        },
    }
}

/// Goes on with a stage of a pipeline that was started, or could not be.
fn answer_spawned(
    m: &mut Machine,
    state: &ShellState,
    words: Vec<String>,
    Ghost(a): Ghost<machine::ActionModel>,
    outcome: Result<i32, String>,
)
    requires
        a matches machine::ActionModel::Spawn { words: w, .. } && w == text::texts(words@),
    ensures
        machine::config(final(m), state) == answered(
            machine::config(old(m), state).go(machine::ControlModel::Ask(a)),
            machine::AnswerModel::Spawned(
                match outcome {
                    Ok(pid) => Ok(pid),
                    Err(e) => Err(e@),
                },
            ),
        ),
{
    let top = m.pop_frame();
    match top {
        Some(Frame::Stages { redirects, rest, background, pids, texts }) => match outcome {
            Ok(pid) => {
                let mut pids = pids;
                pids.push(pid);
                m.push_frame(Frame::Stages { redirects, rest, background, pids, texts });
                m.control = Control::NextStage;
            },
            Err(e) => {
                note(m, failure_text(&words, e.as_str()));
                m.control = Control::Status(127);
            },
        },
        other => {
            proof {
                lemma_put_back(machine::frame_models(old(m).frames@));
            }
            halt(m, other);
        },
    }
}

fn status_of_codes(codes: &[Option<i32>]) -> (r: i32)
    ensures
        r == pipeline_status(codes@),
{
    if codes.len() == 0 {
        0
    } else {
        match codes[codes.len() - 1] {
            Some(code) => code,
            None => 1,
        }
    }
}

impl Machine {
    /// Goes on with an answer.
    pub fn answer(&mut self, state: &mut ShellState, answer: Answer)
        ensures
            machine::config(final(self), final(state)) == answered(
                machine::config(old(self), old(state)),
                answer.model(),
            ),
    {
        let mut control = Control::NextJob;
        std::mem::swap(&mut control, &mut self.control);
        match (control, answer) {
            (Control::Ask(Action::Builtin(request)), Answer::Builtin(reply)) => {
                let next = finish_builtin(request, reply, state);
                take_step(self, state, next);
            },
            (Control::Ask(Action::Glob { pattern, literal }), Answer::Paths(paths)) => {
                answer_paths(self, state, pattern, literal, paths);
            },
            (Control::Ask(Action::BeginCapture { jobs }), Answer::Began(outcome)) => {
                answer_began(self, state, jobs, outcome);
            },
            (Control::Ask(Action::EndCapture), Answer::Captured(outcome)) => {
                answer_captured(self, state, outcome);
            },
            (
                Control::Ask(Action::OpenOutput { redirect, words }),
                Answer::Opened(outcome),
            ) => match outcome {
                Ok(_) => {
                    self.push_frame(Frame::Diverted);
                    self.control = Control::Invoke(words);
                },
                Err(e) => {
                    let begin = concat3("rsh: ", redirect.target.as_str(), ": ");
                    note(self, concat(begin.as_str(), e.as_str()));
                    self.control = Control::Status(1);
                },
            },
            (Control::Ask(Action::RestoreOutput { result }), Answer::Restored) => {
                self.control = control_after(result);
            },
            (
                Control::Ask(Action::RunForeground { words, envs: _, redirects: _ }),
                Answer::Ran(ran),
            ) => {
                answer_ran(self, state, words, ran);
            },
            (
                Control::Ask(Action::Spawn { words, envs, redirects, inner, last, background }),
                Answer::Spawned(outcome),
            ) => {
                let ghost a = machine::ActionModel::Spawn {
                    words: text::texts(words@),
                    envs: machine::pair_texts(envs@),
                    redirects: syntax::redirect_models(redirects@),
                    inner,
                    last,
                    background,
                };
                answer_spawned(self, state, words, Ghost(a), outcome);
            },
            (Control::Ask(Action::WaitStages { pids: _ }), Answer::Codes(codes)) => {
                self.control = Control::Status(status_of_codes(&codes));
            },
            (control, _) => {
                self.control = control;
            },
        }
    }

    /// Does at most `limit` steps, until the machine waits or is over.
    pub fn run(&mut self, state: &mut ShellState, limit: u64)
        ensures
            machine::config(final(self), final(state)) == after_steps(
                machine::config(old(self), old(state)),
                limit as nat,
            ),
    {
        let mut left: u64 = limit;
        while left > 0 && !matches!(self.control, Control::Ask(_) | Control::Over(_))
            invariant
                left <= limit,
                after_steps(machine::config(old(self), old(state)), limit as nat) == after_steps(
                    machine::config(self, state),
                    left as nat,
                ),
            decreases left,
        {
            self.step(state);
            left -= 1;
        }
    }
}

/// How far a run came.
#[derive(Debug)]
pub enum Progress {
    /// It is over; with a status if the shell is to exit. These lines are to
    /// be written.
    Finished(Option<i32>, Vec<report::Line>),
    /// It goes on with this machine: with an answer if that waits for one.
    Going(Machine),
}

/// The number of steps that a run takes before it comes back.
pub const STEP_LIMIT: u64 = 1000000;

/// What a machine and its state amount to as progress.
pub open spec fn progress_of(p: Progress, st: state::StateModel, c: machine::Config) -> bool {
    match p {
        Progress::Finished(exit, lines) => c.control == machine::ControlModel::Over(exit)
            && c.lines == report::line_models(lines@) && c.st == st,
        Progress::Going(m) => !(c.control is Over) && c == (machine::Config {
            control: m.control.model(),
            frames: machine::frame_models(m.frames@),
            lines: report::line_models(m.lines@),
            st,
        }),
    }
}

/// Goes on with a run.
pub fn resume(machine: Machine, state: &mut ShellState) -> (r: Progress)
    ensures
        progress_of(
            r,
            final(state).model(),
            after_steps(machine::config(&machine, old(state)), STEP_LIMIT as nat),
        ),
{
    let mut m = machine;
    m.run(state, STEP_LIMIT);
    let Machine { control, frames, lines } = m;
    match control {
        Control::Over(exit) => Progress::Finished(exit, lines),
        control => Progress::Going(Machine { control, frames, lines }),
    }
}

/// Runs a list of jobs, each if its connector lets it, until the world outside
/// is needed. The run ends with a status if the shell is to exit.
pub fn run_jobs(jobs: &Vec<Job>, state: &mut ShellState) -> (r: Progress)
    ensures
        progress_of(
            r,
            final(state).model(),
            after_steps(
                started(syntax::job_models(jobs@), old(state).model()),
                STEP_LIMIT as nat,
            ),
        ),
        progress_of(
            r,
            final(state).model(),
            after_steps(
                machine::Config {
                    control: machine::ControlModel::Start(syntax::job_models(jobs@)),
                    frames: Seq::empty(),
                    lines: Seq::empty(),
                    st: old(state).model(),
                },
                STEP_LIMIT as nat,
            ),
        ),
{
    let m = Machine::new(copy_jobs(jobs));
    resume(m, state)
}

} // verus!
