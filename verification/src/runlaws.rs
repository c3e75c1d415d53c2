//! Laws of commands on their way out: which words, variables and redirections
//! a program, a builtin or a stage of a pipeline is handed.

use crate::arith;
use crate::builtins;
use crate::discipline;
use crate::executor;
use crate::expand;
use crate::flowlaws;
use crate::jobs;
use crate::machine;
use crate::outside;
use crate::outside::BuiltinResult;
use crate::pattern;
use crate::redirect;
use crate::report;
use crate::state;
use crate::syntax;
use crate::table;
use crate::text;
use crate::tokenizer::RedirectKind;
use crate::vars;
use vstd::prelude::*;

verus! {

// ---------------------------------------------------------------------------
// Leading assignments.
// ---------------------------------------------------------------------------

/// A name begins with a letter or `_` and goes on with these and digits, all
/// of them ASCII.
pub proof fn law_names(s: Seq<char>)
    ensures
        expand::valid_name(s) <==> {
            &&& s.len() > 0
            &&& !('0' <= s[0] && s[0] <= '9')
            &&& forall|k: int|
                0 <= k < s.len() ==> ('a' <= (#[trigger] s[k]) && s[k] <= 'z') || ('A' <= s[k]
                    && s[k] <= 'Z') || ('0' <= s[k] && s[k] <= '9') || s[k] == '_'
        },
{
}

/// The words of a command line fall into the assignments in front, in order,
/// each `NAME=value`, and the words of the command, the first of which is no
/// assignment.
pub open spec fn parted(
    args: Seq<Seq<char>>,
    envs: Seq<(Seq<char>, Seq<char>)>,
    words: Seq<Seq<char>>,
) -> bool {
    &&& envs.len() <= args.len()
    &&& words == args.skip(envs.len() as int)
    &&& forall|k: int|
        0 <= k < envs.len() ==> expand::valid_name((#[trigger] envs[k]).0) && args[k] == envs[k].0
            + seq!['='] + envs[k].1
    &&& words.len() > 0 ==> forall|name: Seq<char>, value: Seq<char>|
        expand::valid_name(name) ==> words[0] != #[trigger] (name + seq!['='] + value)
}

proof fn lemma_parted(args: Seq<Seq<char>>, i: int, acc: Seq<(Seq<char>, Seq<char>)>)
    requires
        0 <= i <= args.len(),
        acc.len() == i,
        forall|k: int|
            0 <= k < acc.len() ==> expand::valid_name((#[trigger] acc[k]).0) && args[k] == acc[k].0
                + seq!['='] + acc[k].1,
    ensures
        parted(
            args,
            executor::split_from(args, i, acc).0,
            executor::split_from(args, i, acc).1,
        ),
    decreases args.len() - i,
{
    let r = executor::split_from(args, i, acc);
    if i < args.len() {
        let w = args[i];
        expand::lemma_find_char(w, 0, '=');
        let part = text::split_at_char(w, '=');
        let (name, value) = part.unwrap();
        if part is Some && expand::valid_name(name) {
            let more = acc.push((name, value));
            let at = text::find_char(w, 0, '=').unwrap();
            assert(w =~= w.take(at) + seq!['='] + w.skip(at + 1));
            assert forall|k: int| 0 <= k < more.len() implies expand::valid_name(
                (#[trigger] more[k]).0,
            ) && args[k] == more[k].0 + seq!['='] + more[k].1 by {
                if k < i {
                    assert(more[k] == acc[k]);
                }
            }
            lemma_parted(args, i + 1, more);
        } else {
            assert(r == (acc, args.skip(i)));
            assert(args.skip(i)[0] == w);
            assert forall|name: Seq<char>, value: Seq<char>| expand::valid_name(name) implies w
                != #[trigger] (name + seq!['='] + value) by {
                flowlaws::lemma_split_word(name, value, 0);
                assert((name + seq!['='] + value).take(name.len() as int) =~= name);
            }
        }
    }
}

/// Splitting a command line parts it: nothing is lost, moved or changed.
pub proof fn law_leading_assignments(args: Seq<Seq<char>>)
    ensures
        parted(args, executor::split_words_of(args).0, executor::split_words_of(args).1),
{
    lemma_parted(args, 0, Seq::empty());
}

proof fn lemma_applied(
    assigns: Seq<(Seq<char>, Seq<char>)>,
    i: int,
    v: vars::VarsModel,
    name: Seq<char>,
)
    requires
        0 <= i <= assigns.len(),
    ensures
        ({
            let r = executor::applied(assigns, i, v);
            &&& r.env == v.env
            &&& r.notices == v.notices
            &&& (forall|k: int| i <= k < assigns.len() ==> (#[trigger] assigns[k]).0 != name)
                ==> table::lookup(r.shell, name) == table::lookup(v.shell, name)
            &&& forall|k: int|
                i <= k < assigns.len() && assigns[k].0 == name && (forall|j: int|
                    k < j < assigns.len() ==> (#[trigger] assigns[j]).0 != name) ==> table::lookup(
                    r.shell,
                    name,
                ) == Some((#[trigger] assigns[k]).1)
        }),
    decreases assigns.len() - i,
{
    if i < assigns.len() {
        let next = v.set(assigns[i].0, assigns[i].1);
        lemma_applied(assigns, i + 1, next, name);
        table::law_read_after_write(v.shell, assigns[i].0, assigns[i].1, name);
    }
}

/// Assignments are made in order: of several to one name the last stands, other
/// names keep their values, and the environment is left alone.
pub proof fn law_assignments_in_order(
    assigns: Seq<(Seq<char>, Seq<char>)>,
    v: vars::VarsModel,
    name: Seq<char>,
    k: int,
)
    ensures
        executor::applied(assigns, 0, v).env == v.env,
        (forall|j: int| 0 <= j < assigns.len() ==> (#[trigger] assigns[j]).0 != name)
            ==> executor::applied(assigns, 0, v).value(name) == v.value(name),
        0 <= k < assigns.len() && assigns[k].0 == name && (forall|j: int|
            k < j < assigns.len() ==> (#[trigger] assigns[j]).0 != name) ==> executor::applied(
            assigns,
            0,
            v,
        ).value(name) == assigns[k].1,
{
    lemma_applied(assigns, 0, v, name);
}

// ---------------------------------------------------------------------------
// Redirections on their way.
// ---------------------------------------------------------------------------

/// The redirections are those that were written, each in its place and of its
/// kind, with the marks taken off its target.
pub open spec fn as_written(
    asked: Seq<syntax::RedirectModel>,
    written: Seq<syntax::RedirectModel>,
) -> bool {
    &&& asked.len() == written.len()
    &&& forall|k: int|
        0 <= k < written.len() ==> (#[trigger] asked[k]).kind == written[k].kind && asked[k].target
            == expand::stripped(written[k].target)
}

/// The state with assignments made in the shell, and nothing else changed.
pub open spec fn with_assignments(
    st: state::StateModel,
    envs: Seq<(Seq<char>, Seq<char>)>,
) -> state::StateModel {
    state::StateModel { vars: executor::applied(envs, 0, st.vars), ..st }
}

/// A command that is not the only one of its pipeline, or stands in the
/// background, is run as a stage: the pipeline begins with all its commands to
/// come, in order.
pub proof fn law_pipeline_begins(c: machine::Config, p: syntax::PipelineModel)
    requires
        c.control == machine::ControlModel::Run(syntax::UnitModel::Pipeline(p)),
        p.commands.len() != 1 || p.background,
    ensures
        ({
            let d = executor::step(c);
            &&& d.control is NextStage
            &&& d.frames.drop_last() == c.frames
            &&& d.frames.last() matches machine::FrameModel::Stages(s) && s.rest == p.commands
                && s.background == p.background && s.pids.len() == 0
            &&& d.st == c.st
            &&& d.lines == c.lines
        }),
{
    let d = executor::step(c);
    assert(d.frames.drop_last() =~= c.frames);
}

/// What a stage is started with. Whatever its words expand to, and however
/// long that takes, the process asked for it gets exactly the redirections
/// written at the stage, its leading assignments as environment, and its
/// command words. It is the last one exactly if no stage is left, and stands in
/// the background exactly if the pipeline does; the stages behind it are still
/// to come.
pub proof fn law_stages_get_their_own(
    c: machine::Config,
    s: machine::StagesModel,
    tr: Seq<machine::Config>,
    args: Seq<Seq<char>>,
)
    requires
        c.control is NextStage,
        c.frames.len() > 0,
        c.frames.last() == machine::FrameModel::Stages(s),
        s.rest.len() > 0,
        discipline::excursion(tr, c.frames.len() as int),
        tr[0] == executor::step(c),
        tr.last().control == machine::ControlModel::Words(args),
    ensures
        tr[0].frames.last() matches machine::FrameModel::Expand(e) && e.words
            == executor::alias_args(s.rest[0].args, c.st.aliases) && e.done.len() == 0
            && !e.patterns,
        ({
            let d = executor::step(tr.last());
            match d.control {
                machine::ControlModel::Ask(
                    machine::ActionModel::Spawn {
                        words,
                        envs,
                        redirects,
                        inner,
                        last,
                        background,
                    },
                ) => {
                    &&& words.len() > 0
                    &&& parted(args, envs, words)
                    &&& as_written(redirects, s.rest[0].redirects)
                    &&& last == (s.rest.len() == 1)
                    &&& background == s.background
                    &&& d.st == with_assignments(tr.last().st, envs)
                    &&& inner == (builtins::builtin_name(words[0]) || table::lookup(
                        tr.last().st.functions,
                        words[0],
                    ) is Some)
                },
                machine::ControlModel::NextStage => exists|envs: Seq<(Seq<char>, Seq<char>)>| #[trigger]
                    parted(args, envs, Seq::empty()) && d.st == with_assignments(
                        tr.last().st,
                        envs,
                    ),
                _ => false,
            }
        }),
        ({
            let d = executor::step(tr.last());
            &&& d.frames.drop_last() == c.frames.drop_last()
            &&& d.frames.last() matches machine::FrameModel::Stages(t) && t.rest == s.rest.skip(1)
                && t.pids == s.pids && t.background == s.background
        }),
{
    let k = c.frames.len() as int;
    let begun = tr[0];
    let d = tr.last();
    let here = machine::StagesModel {
        redirects: redirect::plain(s.rest[0].redirects),
        rest: s.rest.skip(1),
        ..s
    };
    let frame = machine::FrameModel::Stages(here);
    assert(begun.frames.take(k) =~= c.frames.drop_last().push(frame));
    discipline::lemma_floor(tr, k, tr.len() - 1);
    assert(d.frames.take(k) =~= d.frames);
    assert(d.frames.last() == frame);
    law_leading_assignments(args);
    let (envs, words) = executor::split_words_of(args);
    let next = executor::step(d);
    assert(next == executor::run_stage(d, here, args));
    assert(next.frames.drop_last() =~= c.frames.drop_last());
    if words.len() == 0 {
        assert(words =~= Seq::empty());
        assert(parted(args, envs, Seq::empty()));
    }
}

/// A single command in the foreground is handed what is written at it, too: a
/// program its words, its leading assignments as environment, and its
/// redirections; a builtin or a function its words, once its first `>` or `>>`
/// is open, if it has one.
pub proof fn law_commands_get_their_own(
    c: machine::Config,
    p: syntax::PipelineModel,
    tr: Seq<machine::Config>,
    args: Seq<Seq<char>>,
)
    requires
        c.control == machine::ControlModel::Run(syntax::UnitModel::Pipeline(p)),
        p.commands.len() == 1,
        !p.background,
        discipline::excursion(tr, (c.frames.len() + 1) as int),
        tr[0] == executor::step(c),
        tr.last().control == machine::ControlModel::Words(args),
    ensures
        tr[0].frames.last() matches machine::FrameModel::Expand(e) && e.words
            == executor::alias_args(p.commands[0].args, c.st.aliases) && e.done.len() == 0
            && !e.patterns,
        ({
            let written = p.commands[0].redirects;
            let d = executor::step(tr.last());
            let known = |w: Seq<char>|
                builtins::builtin_name(w) || table::lookup(tr.last().st.functions, w) is Some;
            &&& d.frames == c.frames
            &&& d.st == with_assignments(tr.last().st, executor::split_words_of(args).0)
            &&& match d.control {
                machine::ControlModel::Ask(
                    machine::ActionModel::RunForeground { words, envs, redirects },
                ) => {
                    &&& words.len() > 0 && !known(words[0])
                    &&& parted(args, envs, words)
                    &&& as_written(redirects, written)
                },
                machine::ControlModel::Ask(
                    machine::ActionModel::OpenOutput { redirect, words },
                ) => {
                    &&& words.len() > 0 && known(words[0])
                    &&& parted(args, executor::split_words_of(args).0, words)
                    &&& exists|k: int|
                        #![trigger written[k]]
                        {
                            &&& 0 <= k < written.len()
                            &&& redirect.kind == written[k].kind
                            &&& redirect.target == expand::stripped(written[k].target)
                            &&& writes(written[k].kind)
                            &&& forall|j: int|
                                0 <= j < k ==> !writes((#[trigger] written[j]).kind)
                        }
                },
                machine::ControlModel::Invoke(words) => {
                    &&& words.len() > 0 && known(words[0])
                    &&& parted(args, executor::split_words_of(args).0, words)
                    &&& forall|j: int|
                        0 <= j < written.len() ==> !writes((#[trigger] written[j]).kind)
                },
                machine::ControlModel::Status(st) => st == 0 && parted(
                    args,
                    executor::split_words_of(args).0,
                    Seq::empty(),
                ),
                _ => false,
            }
        }),
{
    let k = (c.frames.len() + 1) as int;
    let begun = tr[0];
    let d = tr.last();
    let written = p.commands[0].redirects;
    let own = redirect::plain(written);
    let frame = machine::FrameModel::Simple { redirects: own };
    assert(begun.frames.take(k) =~= c.frames.push(frame));
    discipline::lemma_floor(tr, k, tr.len() - 1);
    assert(d.frames.take(k) =~= d.frames);
    assert(d.frames.last() == frame);
    assert(d.frames.drop_last() =~= c.frames);
    law_leading_assignments(args);
    let (envs, words) = executor::split_words_of(args);
    let next = executor::step(d);
    assert(next == executor::run_simple(d.pop(), args, own));
    if words.len() == 0 {
        assert(words =~= Seq::empty());
    } else if executor::inner_command(words[0], d.st) {
        redirect::lemma_output_from(own, 0);
        match redirect::output_from(own, 0) {
            Some(at) => {
                assert(own[at].kind == written[at].kind);
                assert forall|j: int| 0 <= j < at implies !writes((#[trigger] written[j]).kind) by {
                    assert(own[j].kind == written[j].kind);
                }
            },
            None => {
                assert forall|j: int| 0 <= j < written.len() implies !writes(
                    (#[trigger] written[j]).kind,
                ) by {
                    assert(own[j].kind == written[j].kind);
                }
            },
        }
    }
}

/// A `>` or a `>>`.
pub open spec fn writes(kind: RedirectKind) -> bool {
    kind == RedirectKind::Out || kind == RedirectKind::Append
}

/// A stage that was started is remembered behind those before it, one that
/// could not be started ends the pipeline with status 127 and a diagnostic with
/// its name, and a pipeline in the foreground waits for all its stages, in
/// order.
pub proof fn law_stages_are_collected(
    c: machine::Config,
    s: machine::StagesModel,
    words: Seq<Seq<char>>,
    envs: Seq<(Seq<char>, Seq<char>)>,
    redirects: Seq<syntax::RedirectModel>,
    flags: (bool, bool, bool),
    pid: i32,
    m: Seq<char>,
)
    requires
        c.control == machine::ControlModel::Ask(
            machine::ActionModel::Spawn {
                words,
                envs,
                redirects,
                inner: flags.0,
                last: flags.1,
                background: flags.2,
            },
        ),
        words.len() > 0,
        c.frames.len() > 0,
        c.frames.last() == machine::FrameModel::Stages(s),
    ensures
        ({
            let d = executor::answered(c, machine::AnswerModel::Spawned(Ok(pid)));
            &&& d.control is NextStage
            &&& d.frames.drop_last() == c.frames.drop_last()
            &&& d.frames.last() matches machine::FrameModel::Stages(t) && t.pids == s.pids.push(pid)
                && t.rest == s.rest && t.background == s.background && t.texts == s.texts
            &&& d.st == c.st
            &&& !s.background && s.rest.len() == 0 ==> executor::step(d).control
                == machine::ControlModel::Ask(
                machine::ActionModel::WaitStages { pids: s.pids.push(pid) },
            ) && executor::step(d).frames == c.frames.drop_last()
        }),
        ({
            let d = executor::answered(c, machine::AnswerModel::Spawned(Err(m)));
            &&& d.control == machine::ControlModel::Status(127)
            &&& d.frames == c.frames.drop_last()
            &&& d.lines.len() == c.lines.len() + 1
            &&& d.lines.last().error
            &&& d.lines.last().text == "rsh: "@ + words[0] + ": "@ + m + seq!['\n']
        }),
{
    let d = executor::answered(c, machine::AnswerModel::Spawned(Ok(pid)));
    assert(d.frames.drop_last() =~= c.frames.drop_last());
    let e = executor::answered(c, machine::AnswerModel::Spawned(Err(m)));
    assert(e.lines.last().text =~= "rsh: "@ + words[0] + ": "@ + m + seq!['\n']);
}

// ---------------------------------------------------------------------------
// What commands come to.
// ---------------------------------------------------------------------------

/// A program comes to the status that it exits with; one that could not be
/// started comes to 127, and its name and the reason are written to standard
/// error.
pub proof fn law_programs(
    c: machine::Config,
    words: Seq<Seq<char>>,
    envs: Seq<(Seq<char>, Seq<char>)>,
    redirects: Seq<syntax::RedirectModel>,
    code: i32,
    m: Seq<char>,
)
    requires
        c.control == machine::ControlModel::Ask(
            machine::ActionModel::RunForeground { words, envs, redirects },
        ),
        words.len() > 0,
    ensures
        executor::answered(c, machine::AnswerModel::Ran(machine::RanModel::Exited(code))) == c.go(
            machine::ControlModel::Status(code),
        ),
        ({
            let d = executor::answered(
                c,
                machine::AnswerModel::Ran(machine::RanModel::Failed(m)),
            );
            &&& d.control == machine::ControlModel::Status(127)
            &&& d.st == c.st
            &&& d.frames == c.frames
            &&& d.lines.drop_last() == c.lines
            &&& d.lines.last().error
            &&& d.lines.last().text == "rsh: "@ + words[0] + ": "@ + m + seq!['\n']
        }),
{
    let d = executor::answered(c, machine::AnswerModel::Ran(machine::RanModel::Failed(m)));
    assert(d.lines.drop_last() =~= c.lines);
    assert(d.lines.last().text =~= "rsh: "@ + words[0] + ": "@ + m + seq!['\n']);
}

/// A builtin or a function with an output file runs once the file is open; a
/// file that cannot be opened is a failure with status 1, and nothing runs.
/// Once standard output is back, the command comes to what it came to.
pub proof fn law_output_files(
    c: machine::Config,
    redirect: syntax::RedirectModel,
    words: Seq<Seq<char>>,
    m: Seq<char>,
    s: i32,
)
    ensures
        c.control == machine::ControlModel::Ask(
            machine::ActionModel::OpenOutput { redirect, words },
        ) ==> {
            let d = executor::answered(c, machine::AnswerModel::Opened(Ok(())));
            let e = executor::answered(c, machine::AnswerModel::Opened(Err(m)));
            &&& d.control == machine::ControlModel::Invoke(words)
            &&& d.frames == c.frames.push(machine::FrameModel::Diverted)
            &&& d.st == c.st
            &&& e.control == machine::ControlModel::Status(1)
            &&& e.frames == c.frames
            &&& e.st == c.st
            &&& e.lines.last().error
            &&& e.lines.last().text == "rsh: "@ + redirect.target + ": "@ + m + seq!['\n']
        },
        c.control == machine::ControlModel::Ask(
            machine::ActionModel::RestoreOutput { result: BuiltinResult::Status(s) },
        ) ==> executor::answered(c, machine::AnswerModel::Restored) == c.go(
            machine::ControlModel::Status(s),
        ),
        c.control == machine::ControlModel::Ask(
            machine::ActionModel::RestoreOutput { result: BuiltinResult::Exit(s) },
        ) ==> executor::answered(c, machine::AnswerModel::Restored) == c.go(
            machine::ControlModel::Exit(s),
        ),
        c.frames.len() > 0 && c.frames.last() is Diverted && c.control
            == machine::ControlModel::Status(s) ==> executor::step(c).control
            == machine::ControlModel::Ask(
            machine::ActionModel::RestoreOutput { result: BuiltinResult::Status(s) },
        ),
        c.frames.len() > 0 && c.frames.last() is Diverted && c.control
            == machine::ControlModel::Exit(s) ==> executor::step(c).control
            == machine::ControlModel::Ask(
            machine::ActionModel::RestoreOutput { result: BuiltinResult::Exit(s) },
        ),
{
    let t = "rsh: "@ + redirect.target + ": "@ + m;
    assert(t.push('\n') =~= t + seq!['\n']);
}

/// An exit leaves everything that it stands in, one after the other, and ends
/// the shell with its status, as long as no command substitution and no
/// diverted output is in between.
pub proof fn law_exit_leaves(c: machine::Config, code: i32)
    requires
        c.control == machine::ControlModel::Exit(code),
        forall|k: int|
            0 <= k < c.frames.len() ==> !(#[trigger] c.frames[k] is Capture)
                && !(c.frames[k] is Diverted),
    ensures
        executor::after_steps(c, c.frames.len() + 1).control == machine::ControlModel::Over(
            Some(code),
        ),
        executor::after_steps(c, c.frames.len() + 1).lines == c.lines,
    decreases c.frames.len(),
{
    let d = executor::step(c);
    reveal_with_fuel(executor::after_steps, 2);
    if c.frames.len() > 0 {
        assert(!(c.frames[c.frames.len() - 1] is Capture));
        assert(d.control == machine::ControlModel::Exit(code));
        assert(d.frames == c.frames.drop_last());
        assert forall|k: int| 0 <= k < d.frames.len() implies !(#[trigger] d.frames[k] is Capture)
            && !(d.frames[k] is Diverted) by {
            assert(d.frames[k] == c.frames[k]);
        }
        law_exit_leaves(d, code);
        assert(executor::after_steps(c, c.frames.len() + 1) == executor::after_steps(
            d,
            c.frames.len(),
        ));
        assert(c.frames.len() == d.frames.len() + 1);
    }
}

/// When nothing is left to come back to, a status ends the run, and the shell
/// goes on.
pub proof fn law_runs_end(c: machine::Config, s: i32)
    requires
        c.control == machine::ControlModel::Status(s),
        c.frames.len() == 0,
    ensures
        executor::step(c) == c.go(machine::ControlModel::Over(None)),
{
}

/// A list of jobs begins with its first job, whatever ran before; a group is
/// its list.
pub proof fn law_lists_begin(c: machine::Config, jobs: Seq<syntax::JobModel>)
    requires
        c.control == machine::ControlModel::Start(jobs),
    ensures
        ({
            let d = executor::step(executor::step(c));
            &&& d.st == c.st
            &&& d.lines == c.lines
            &&& jobs.len() > 0 ==> {
                &&& d.control == machine::ControlModel::Run(jobs[0].unit)
                &&& d.frames.drop_last() == c.frames
                &&& d.frames.last() == (machine::FrameModel::Jobs {
                    rest: jobs.skip(1),
                    prev: jobs[0].connector,
                })
            }
            &&& jobs.len() == 0 ==> {
                &&& d.control == machine::ControlModel::Status(c.st.last_status)
                &&& d.frames == c.frames
            }
        }),
        executor::step(c.go(machine::ControlModel::Run(syntax::UnitModel::Group(jobs)))) == c,
{
    let d = executor::step(executor::step(c));
    if jobs.len() > 0 {
        assert(d.frames.drop_last() =~= c.frames);
    } else {
        assert(d.frames =~= c.frames);
    }
}

/// How compound commands begin: an `if` with its first condition, a loop with
/// its condition, a `for` with the expansion of its words, a `case` with the
/// expansion of its subject.
pub proof fn law_compounds_begin(
    c: machine::Config,
    chain: syntax::IfModel,
    cond: Seq<syntax::JobModel>,
    body: Seq<syntax::JobModel>,
    until: bool,
    var: Seq<char>,
    words: Seq<Seq<char>>,
    word: Seq<char>,
    arms: Seq<syntax::CaseArmModel>,
)
    ensures
        ({
            let run = |cmd: syntax::CompoundModel|
                executor::step(
                    c.go(machine::ControlModel::Run(syntax::UnitModel::Compound(cmd))),
                );
            let a = run(syntax::CompoundModel::If(chain));
            let b = run(syntax::CompoundModel::While { cond, body, until });
            let d = run(syntax::CompoundModel::For { var, words, body });
            let e = run(syntax::CompoundModel::Case { word, arms });
            &&& chain.branches.len() > 0 ==> {
                &&& a.control == machine::ControlModel::Start(chain.branches[0].0)
                &&& a.frames.drop_last() == c.frames
                &&& a.frames.last() == (machine::FrameModel::If {
                    body: chain.branches[0].1,
                    rest: chain.branches.skip(1),
                    other: chain.else_body,
                })
            }
            &&& b.control == machine::ControlModel::Start(cond)
            &&& b.frames.drop_last() == c.frames
            &&& b.frames.last() == (machine::FrameModel::WhileCond { cond, body, until, last: 0 })
            &&& d.control is NextWord
            &&& d.frames.len() == c.frames.len() + 2
            &&& d.frames[c.frames.len() as int] == (machine::FrameModel::ForWords { var, body })
            &&& d.frames.last() matches machine::FrameModel::Expand(x) && x.words == words
                && x.done.len() == 0 && !x.command && !x.patterns
            &&& e.control is NextWord
            &&& e.frames.len() == c.frames.len() + 2
            &&& e.frames[c.frames.len() as int] == (machine::FrameModel::CaseWord { arms })
            &&& e.frames.last() matches machine::FrameModel::Expand(x) && x.words == seq![word]
                && x.done.len() == 0 && !x.command && !x.patterns
        }),
{
    let run = |cmd: syntax::CompoundModel|
        executor::step(c.go(machine::ControlModel::Run(syntax::UnitModel::Compound(cmd))));
    let a = run(syntax::CompoundModel::If(chain));
    let b = run(syntax::CompoundModel::While { cond, body, until });
    if chain.branches.len() > 0 {
        assert(a.frames.drop_last() =~= c.frames);
    }
    assert(b.frames.drop_last() =~= c.frames);
}

/// The words of a `for` become its items, all of them and in order; the first
/// word of a `case`, or the empty text where there is none, becomes its
/// subject, and its arms are tried from the first one on.
pub proof fn law_words_of_compounds(
    c: machine::Config,
    words: Seq<Seq<char>>,
    var: Seq<char>,
    body: Seq<syntax::JobModel>,
    arms: Seq<syntax::CaseArmModel>,
)
    requires
        c.control == machine::ControlModel::Words(words),
        c.frames.len() > 0,
    ensures
        c.frames.last() == (machine::FrameModel::ForWords { var, body }) ==> {
            let d = executor::step(c);
            &&& d.control == machine::ControlModel::Status(0)
            &&& d.frames.drop_last() == c.frames.drop_last()
            &&& d.frames.last() == (machine::FrameModel::For { var, items: words, body })
        },
        c.frames.last() == (machine::FrameModel::CaseWord { arms }) ==> {
            let d = executor::step(c);
            let subject = if words.len() == 0 {
                Seq::empty()
            } else {
                words[0]
            };
            &&& arms.len() == 0 ==> d == c.pop().go(machine::ControlModel::Status(0))
            &&& arms.len() > 0 ==> {
                &&& d.control is NextWord
                &&& d.frames.len() == c.frames.len() + 1
                &&& d.frames[c.frames.len() - 1] == (machine::FrameModel::CaseArms {
                    subject,
                    body: arms[0].body,
                    rest: arms.skip(1),
                })
                &&& d.frames.last() matches machine::FrameModel::Expand(x) && x.words
                    == arms[0].patterns && x.patterns
            }
        },
{
    let d = executor::step(c);
    if c.frames.last() is ForWords {
        assert(d.frames.drop_last() =~= c.frames.drop_last());
    }
}

/// An arm of a `case` that does not match is followed by the next one, with the
/// same subject.
pub proof fn law_next_arms(
    c: machine::Config,
    subject: Seq<char>,
    patterns: Seq<Seq<char>>,
    body: Seq<syntax::JobModel>,
    rest: Seq<syntax::CaseArmModel>,
)
    requires
        c.control == machine::ControlModel::Words(patterns),
        c.frames.len() > 0,
        c.frames.last() == (machine::FrameModel::CaseArms { subject, body, rest }),
        forall|k: int|
            0 <= k < patterns.len() ==> !pattern::matching(#[trigger] patterns[k], subject),
        rest.len() > 0,
    ensures
        ({
            let d = executor::step(c);
            &&& d.control is NextWord
            &&& d.frames.len() == c.frames.len() + 1
            &&& d.frames[c.frames.len() - 1] == (machine::FrameModel::CaseArms {
                subject,
                body: rest[0].body,
                rest: rest.skip(1),
            })
            &&& d.frames.last() matches machine::FrameModel::Expand(x) && x.words
                == rest[0].patterns && x.patterns
        }),
{
    flowlaws::law_cases(c, subject, patterns, body, rest);
}

// ---------------------------------------------------------------------------
// Command substitution and diagnostics.
// ---------------------------------------------------------------------------

/// A word with commands to substitute has each of them run before it is
/// finished, in order: the jobs of the first are asked for, and what is left
/// are the others. One that does not parse is reported, and counts as without
/// output.
pub proof fn law_commands_run_in_order(c: machine::Config, e: machine::ExpandModel)
    requires
        c.control is Resolve,
        c.frames.len() > 0,
        c.frames.last() == machine::FrameModel::Expand(e),
        e.pending.len() > 0,
    ensures
        ({
            let d = executor::step(c);
            &&& d.st == c.st
            &&& d.frames.drop_last() == c.frames.drop_last()
            &&& d.frames.last() == machine::FrameModel::Expand(
                machine::ExpandModel { pending: e.pending.skip(1), ..e },
            )
            &&& match executor::program(e.pending[0]) {
                Ok(jobs) => d.control == machine::ControlModel::Ask(
                    machine::ActionModel::BeginCapture { jobs },
                ) && d.lines == c.lines,
                Err(m) => d.control == machine::ControlModel::Output(Seq::empty())
                    && d.lines.last().error && d.lines.last().text == "rsh: $(...): "@ + m
                    + seq!['\n'],
            }
        }),
{
    let d = executor::step(c);
    assert(d.frames.drop_last() =~= c.frames.drop_last());
    match executor::program(e.pending[0]) {
        Ok(_) => {},
        Err(m) => {
            let t = "rsh: $(...): "@ + m;
            assert(t.push('\n') =~= t + seq!['\n']);
        },
    }
}

/// The commands of a word are found when the word is reached, and the words of
/// an expansion are taken in order.
pub proof fn law_words_in_order(c: machine::Config, e: machine::ExpandModel)
    requires
        c.control is NextWord,
        c.frames.len() > 0,
        c.frames.last() == machine::FrameModel::Expand(e),
    ensures
        e.words.len() > 0 ==> {
            let d = executor::step(c);
            &&& d.control is Resolve
            &&& d.st == c.st
            &&& d.lines == c.lines
            &&& d.frames.drop_last() == c.frames.drop_last()
            &&& d.frames.last() == machine::FrameModel::Expand(
                machine::ExpandModel {
                    pending: expand::commands_of(e.words[0]),
                    outputs: Seq::empty(),
                    ..e
                },
            )
        },
        e.words.len() == 0 ==> executor::step(c) == c.pop().go(
            machine::ControlModel::Words(e.done),
        ),
{
    if e.words.len() > 0 {
        assert(executor::step(c).frames.drop_last() =~= c.frames.drop_last());
    }
}

/// A command substitution runs on a copy of the shell, with the variables as
/// they were when the expansion of the words began. What it writes goes into
/// the word, without the newlines at the end; one that could not be run is
/// reported, and counts as without output.
pub proof fn law_substitutions_run(
    c: machine::Config,
    e: machine::ExpandModel,
    jobs: Seq<syntax::JobModel>,
    t: Seq<char>,
    newlines: nat,
    m: Seq<char>,
)
    requires
        c.control == machine::ControlModel::Ask(machine::ActionModel::BeginCapture { jobs }),
        c.frames.len() > 0,
        c.frames.last() == machine::FrameModel::Expand(e),
        t.len() > 0 ==> t.last() != '\n',
    ensures
        ({
            let d = executor::answered(c, machine::AnswerModel::Began(Ok(())));
            &&& d.control == machine::ControlModel::Start(jobs)
            &&& d.frames == c.frames.push(machine::FrameModel::Capture { saved: c.st })
            &&& d.st == (state::StateModel {
                vars: vars::VarsModel { shell: e.snapshot, ..c.st.vars },
                ..c.st
            })
        }),
        ({
            let d = executor::answered(c, machine::AnswerModel::Began(Err(m)));
            &&& d.control == machine::ControlModel::Output(Seq::empty())
            &&& d.frames == c.frames
            &&& d.lines.last().error
            &&& d.lines.last().text == "rsh: $(...): "@ + m + seq!['\n']
        }),
        ({
            let inside = machine::Config {
                control: machine::ControlModel::Ask(machine::ActionModel::EndCapture),
                frames: c.frames.push(machine::FrameModel::Capture { saved: c.st }),
                ..c
            };
            let d = executor::answered(
                inside,
                machine::AnswerModel::Captured(
                    Ok(t + Seq::new(newlines, |k: int| '\n')),
                ),
            );
            &&& d == c.go(machine::ControlModel::Output(t))
            &&& executor::step(d).control is Resolve
            &&& executor::step(d).frames.drop_last() == c.frames.drop_last()
            &&& executor::step(d).frames.last() == machine::FrameModel::Expand(
                machine::ExpandModel { outputs: e.outputs.push(t), ..e },
            )
        }),
        executor::begin_expand(c, seq![t], false).frames.last()
            matches machine::FrameModel::Expand(x) && x.snapshot == c.st.vars.shell,
{
    let x = "rsh: $(...): "@ + m;
    assert(x.push('\n') =~= x + seq!['\n']);
    lemma_newlines(t, newlines);
    let inside = machine::Config {
        control: machine::ControlModel::Ask(machine::ActionModel::EndCapture),
        frames: c.frames.push(machine::FrameModel::Capture { saved: c.st }),
        ..c
    };
    let d = executor::answered(
        inside,
        machine::AnswerModel::Captured(Ok(t + Seq::new(newlines, |k: int| '\n'))),
    );
    assert(d.frames =~= c.frames);
    assert(executor::step(d).frames.drop_last() =~= c.frames.drop_last());
}

proof fn lemma_newlines(t: Seq<char>, n: nat)
    requires
        t.len() > 0 ==> t.last() != '\n',
    ensures
        executor::without_newlines(t + Seq::new(n, |k: int| '\n')) == t,
    decreases n,
{
    let s = t + Seq::new(n, |k: int| '\n');
    if n == 0 {
        assert(s =~= t);
    } else {
        assert(s.drop_last() =~= t + Seq::new((n - 1) as nat, |k: int| '\n'));
        lemma_newlines(t, (n - 1) as nat);
    }
}

/// A substitution or an exit inside it ends with the request for what was
/// written.
pub proof fn law_captures_end(c: machine::Config, s: i32)
    requires
        c.frames.len() > 0,
        c.frames.last() is Capture,
        c.control == machine::ControlModel::Status(s) || c.control == machine::ControlModel::Exit(s),
    ensures
        executor::step(c) == c.go(machine::ControlModel::Ask(machine::ActionModel::EndCapture)),
{
}

/// The diagnostics that the expansion of a word gives rise to are written to
/// standard error, in order, and are then forgotten.
pub proof fn law_notices_are_written(c: machine::Config, e: machine::ExpandModel, k: int)
    requires
        c.control is Resolve,
        c.frames.len() > 0,
        c.frames.last() == machine::FrameModel::Expand(e),
        e.pending.len() == 0,
        e.words.len() > 0,
    ensures
        ({
            let notices = expand::resolved(
                e.words[0],
                e.outputs,
                arith::Scope { vars: c.st.vars, positional: c.st.positional },
                c.st.last_status as int,
            ).1.notices;
            let d = executor::step(c);
            &&& d.st.vars.notices.len() == 0
            &&& d.lines.len() == c.lines.len() + notices.len()
            &&& 0 <= k < c.lines.len() ==> d.lines[k] == c.lines[k]
            &&& 0 <= k < notices.len() ==> d.lines[c.lines.len() + k].error && d.lines[c.lines.len()
                + k].text == notices[k] + seq!['\n']
        }),
{
    let notices = expand::resolved(
        e.words[0],
        e.outputs,
        arith::Scope { vars: c.st.vars, positional: c.st.positional },
        c.st.last_status as int,
    ).1.notices;
    assert(executor::step(c) == executor::finish_resolve(c, e));
    assert(executor::step(c).lines == c.lines + executor::notice_lines(notices));
    if 0 <= k < notices.len() {
        assert(notices[k].push('\n') =~= notices[k] + seq!['\n']);
    }
}

/// A pipeline in the background is listed under its commands: the words of each
/// stage with spaces in between, the stages with bars.
pub proof fn law_background_commands(
    c: machine::Config,
    s: machine::StagesModel,
    args: Seq<Seq<char>>,
)
    requires
        c.frames.len() > 0,
        c.frames.last() == machine::FrameModel::Stages(s),
    ensures
        c.control == machine::ControlModel::Words(args) && executor::step(c).control is Ask ==> {
            &&& executor::step(c).frames.last() matches machine::FrameModel::Stages(t) && t.texts
                == s.texts.push(text::joined(executor::split_words_of(args).1, " "@))
        },
        c.control is NextStage && s.background && s.rest.len() == 0 && s.pids.len() > 0
            && c.st.next_job_id < usize::MAX ==> {
            let d = executor::step(c);
            &&& d.st.jobs.drop_last() == c.st.jobs
            &&& d.st.jobs.last().command == text::joined(s.texts, " | "@)
            &&& d.st.jobs.last().pid == s.pids.last()
            &&& d.st.jobs.last().id == c.st.next_job_id
            &&& d.st.next_job_id == c.st.next_job_id + 1
        },
{
    if c.control is NextStage && s.background && s.rest.len() == 0 && s.pids.len() > 0
        && c.st.next_job_id < usize::MAX {
        assert(executor::step(c).st.jobs.drop_last() =~= c.st.jobs);
    }
}

// ---------------------------------------------------------------------------
// Where runs begin.
// ---------------------------------------------------------------------------

/// A run begins with the first of its jobs, whatever the last status was, on
/// the state as it is, and comes back to the other jobs.
pub proof fn law_runs_begin(jobs: Seq<syntax::JobModel>, st: state::StateModel)
    requires
        jobs.len() > 0,
    ensures
        ({
            let c = executor::after_steps(executor::started(jobs, st), 2);
            &&& c.control == machine::ControlModel::Run(jobs[0].unit)
            &&& c.frames == seq![
                machine::FrameModel::Jobs { rest: jobs.skip(1), prev: jobs[0].connector },
            ]
            &&& c.lines.len() == 0
            &&& c.st == st
        }),
{
    let c = executor::started(jobs, st);
    law_lists_begin(c, jobs);
    reveal_with_fuel(executor::after_steps, 3);
    let d = executor::step(executor::step(c));
    assert(executor::after_steps(c, 2) == d);
    assert(d.frames =~= seq![
        machine::FrameModel::Jobs { rest: jobs.skip(1), prev: jobs[0].connector },
    ]);
}

/// A builtin in a process of its own does what it does in the shell, and ends
/// the run with its status as the last one.
pub proof fn law_stages_run(words: Seq<Seq<char>>, st: state::StateModel, s: i32)
    requires
        words.len() > 0,
        builtins::builtin_name(words[0]),
        builtins::builtin_step(words, st).0.next == outside::NextModel::Done(
            BuiltinResult::Status(s),
        ),
    ensures
        ({
            let d = executor::after_steps(executor::stage_started(words, st), 4);
            let (step, after) = builtins::builtin_step(words, st);
            &&& d.control == machine::ControlModel::Over(None)
            &&& d.lines == step.lines
            &&& d.st == (state::StateModel { last_status: s, ..after })
        }),
{
    let c = executor::stage_started(words, st);
    let c1 = executor::step(c);
    let (step, after) = builtins::builtin_step(words, st);
    assert(c1.control == machine::ControlModel::Status(s));
    assert(c1.st == after);
    assert(Seq::<report::LineModel>::empty() + step.lines =~= step.lines);
    let c2 = executor::step(c1);
    let c3 = executor::step(c2);
    let c4 = executor::step(c3);
    assert(c3.control == machine::ControlModel::Status(s));
    assert(c3.frames.len() == 0);
    assert(executor::after_steps(c3, 1) == executor::after_steps(c4, 0));
    assert(executor::after_steps(c2, 2) == executor::after_steps(c3, 1));
    assert(executor::after_steps(c1, 3) == executor::after_steps(c2, 2));
    assert(executor::after_steps(c, 4) == executor::after_steps(c1, 3));
}

/// A word is an assignment exactly if it is a name, a `=` and any text.
pub proof fn law_what_is_an_assignment(w: Seq<char>, name: Seq<char>, value: Seq<char>)
    requires
        expand::valid_name(name),
    ensures
        expand::assignment_word(name + seq!['='] + value),
        expand::assignment_word(w) ==> ({
            let (n, v) = text::split_at_char(w, '=').unwrap();
            expand::valid_name(n) && w == n + seq!['='] + v
        }),
{
    let t = name + seq!['='] + value;
    flowlaws::lemma_split_word(name, value, 0);
    assert(t.take(name.len() as int) =~= name);
    if expand::assignment_word(w) {
        expand::lemma_find_char(w, 0, '=');
        let at = text::find_char(w, 0, '=').unwrap();
        assert(w =~= w.take(at) + seq!['='] + w.skip(at + 1));
    }
}

/// A pipeline whose last stage a signal ended fails with status 1.
pub proof fn law_killed_pipelines(c: machine::Config, pids: Seq<i32>, codes: Seq<Option<i32>>)
    requires
        c.control == machine::ControlModel::Ask(machine::ActionModel::WaitStages { pids }),
        codes.len() > 0,
        codes.last() is None,
    ensures
        executor::answered(c, machine::AnswerModel::Codes(codes)) == c.go(
            machine::ControlModel::Status(1),
        ),
{
}

/// A program that stops gives the shell the word again, with status 0; only the
/// job table changes.
pub proof fn law_stops_succeed(
    c: machine::Config,
    words: Seq<Seq<char>>,
    envs: Seq<(Seq<char>, Seq<char>)>,
    redirects: Seq<syntax::RedirectModel>,
    pid: i32,
)
    requires
        c.control == machine::ControlModel::Ask(
            machine::ActionModel::RunForeground { words, envs, redirects },
        ),
        c.st.next_job_id < usize::MAX,
    ensures
        ({
            let d = executor::answered(
                c,
                machine::AnswerModel::Ran(machine::RanModel::Stopped(pid)),
            );
            &&& d.control == machine::ControlModel::Status(0)
            &&& d.frames == c.frames
            &&& d.lines == c.lines
            &&& d.st.vars == c.st.vars
            &&& d.st.positional == c.st.positional
            &&& d.st.jobs.len() == c.st.jobs.len() + 1
        }),
{
    let added = c.st.with_job(text::joined(words, " "@), pid);
    jobs::lemma_id_from(added.jobs, 0, c.st.next_job_id as int);
}

/// A substitution whose output is lost is reported, and counts as without
/// output; the shell is as it was before.
pub proof fn law_lost_output(c: machine::Config, saved: state::StateModel, m: Seq<char>)
    requires
        c.control == machine::ControlModel::Ask(machine::ActionModel::EndCapture),
        c.frames.len() > 0,
        c.frames.last() == (machine::FrameModel::Capture { saved }),
    ensures
        ({
            let d = executor::answered(c, machine::AnswerModel::Captured(Err(m)));
            &&& d.control == machine::ControlModel::Output(Seq::empty())
            &&& d.st == saved
            &&& d.frames == c.frames.drop_last()
            &&& d.lines.last().error
            &&& d.lines.last().text == "rsh: $(...): "@ + m + seq!['\n']
        }),
{
    let t = "rsh: $(...): "@ + m;
    assert(t.push('\n') =~= t + seq!['\n']);
}

/// The jobs of a list are taken one after the other: each runs if its connector
/// lets it, given the last status, and is passed over otherwise, which leaves
/// the status for the connector behind it.
pub proof fn law_next_jobs(
    c: machine::Config,
    rest: Seq<syntax::JobModel>,
    prev: syntax::Connector,
)
    requires
        c.control is NextJob,
        c.frames.len() > 0,
        c.frames.last() == (machine::FrameModel::Jobs { rest, prev }),
        rest.len() > 0,
    ensures
        ({
            let d = executor::step(c);
            let s = c.st.last_status;
            &&& d.st == c.st
            &&& d.lines == c.lines
            &&& d.frames.drop_last() == c.frames.drop_last()
            &&& d.frames.last() == (machine::FrameModel::Jobs {
                rest: rest.skip(1),
                prev: rest[0].connector,
            })
            &&& d.control == match prev {
                syntax::Connector::And => if s == 0 {
                    machine::ControlModel::Run(rest[0].unit)
                } else {
                    machine::ControlModel::NextJob
                },
                syntax::Connector::Or => if s == 0 {
                    machine::ControlModel::NextJob
                } else {
                    machine::ControlModel::Run(rest[0].unit)
                },
                syntax::Connector::Sequence => machine::ControlModel::Run(rest[0].unit),
            }
        }),
{
    assert(executor::step(c).frames.drop_last() =~= c.frames.drop_last());
}

/// Nothing happens to a machine that waits until it gets its answer, nor to one
/// that is over; an answer means nothing to a machine that does not wait.
pub proof fn law_waiting(c: machine::Config, a: machine::AnswerModel, n: nat)
    ensures
        c.control is Ask || c.control is Over ==> executor::step(c) == c && executor::after_steps(
            c,
            n,
        ) == c,
        !(c.control is Ask) ==> executor::answered(c, a) == c,
{
}

} // verus!
