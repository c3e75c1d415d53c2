//! Laws of the machine: what it is about to do always fits what it comes back
//! to, and what a command substitution, a function call or a redirection
//! changes is put back.

use crate::builtins;
use crate::executor;
use crate::machine;
use crate::redirect;
use crate::state;
use crate::syntax;
use crate::syntax::Connector;
use crate::table;
use vstd::prelude::*;

verus! {

// ---------------------------------------------------------------------------
// Shape.
// ---------------------------------------------------------------------------

/// A frame that waits for a status.
pub open spec fn takes_status(f: machine::FrameModel) -> bool {
    f is Jobs || f is If || f is For || f is WhileCond || f is WhileBody || f is Call || f is Diverted
        || f is Capture
}

/// A frame that waits for words.
pub open spec fn takes_words(f: machine::FrameModel) -> bool {
    f is Simple || f is ForWords || f is CaseWord || f is CaseArms || f is Stages
}

/// An expansion that is at a word.
pub open spec fn at_a_word(f: machine::FrameModel) -> bool {
    f matches machine::FrameModel::Expand(e) && e.words.len() > 0
}

/// The frame at `i` stands on one that waits for what it will hand down: words
/// from an expansion, output from a substitution, a status from any other.
pub open spec fn stands(frames: Seq<machine::FrameModel>, i: int) -> bool {
    if frames[i] is Expand {
        i > 0 && takes_words(frames[i - 1])
    } else if frames[i] is Capture {
        i > 0 && at_a_word(frames[i - 1])
    } else {
        i == 0 || takes_status(frames[i - 1])
    }
}

/// Every frame stands.
pub open spec fn stacked(frames: Seq<machine::FrameModel>) -> bool {
    forall|i: int| 0 <= i < frames.len() ==> #[trigger] stands(frames, i)
}

/// A status would be taken, by a frame or by the end.
pub open spec fn status_fits(frames: Seq<machine::FrameModel>) -> bool {
    frames.len() == 0 || takes_status(frames.last())
}

/// What the machine is about to do fits the frame on top.
pub open spec fn shaped(c: machine::Config) -> bool {
    &&& stacked(c.frames)
    &&& match c.control {
        machine::ControlModel::NextJob => c.frames.len() > 0 && c.frames.last() is Jobs,
        machine::ControlModel::NextWord => c.frames.len() > 0 && c.frames.last() is Expand,
        machine::ControlModel::Resolve => c.frames.len() > 0 && at_a_word(c.frames.last()),
        machine::ControlModel::Output(_) => c.frames.len() > 0 && at_a_word(c.frames.last()),
        machine::ControlModel::Words(_) => c.frames.len() > 0 && takes_words(c.frames.last()),
        machine::ControlModel::NextStage => c.frames.len() > 0 && c.frames.last() is Stages,
        machine::ControlModel::Ask(a) => match a {
            machine::ActionModel::Glob { pattern: _, literal: _ } => c.frames.len() > 0
                && c.frames.last() is Expand,
            machine::ActionModel::BeginCapture { jobs: _ } => c.frames.len() > 0 && at_a_word(
                c.frames.last(),
            ),
            machine::ActionModel::EndCapture => c.frames.len() > 0 && c.frames.last() is Capture,
            machine::ActionModel::Spawn { .. } => c.frames.len() > 0 && c.frames.last() is Stages,
            _ => status_fits(c.frames),
        },
        machine::ControlModel::Over(_) => true,
        _ => status_fits(c.frames),
    }
}

proof fn lemma_push(frames: Seq<machine::FrameModel>, f: machine::FrameModel)
    requires
        stacked(frames),
        stands(frames.push(f), frames.len() as int),
    ensures
        stacked(frames.push(f)),
{
    let more = frames.push(f);
    assert forall|i: int| 0 <= i < more.len() implies #[trigger] stands(more, i) by {
        if i < frames.len() {
            assert(stands(frames, i));
        }
    }
}

proof fn lemma_pop(frames: Seq<machine::FrameModel>)
    requires
        stacked(frames),
        frames.len() > 0,
    ensures
        stacked(frames.drop_last()),
        stands(frames, frames.len() - 1),
        frames.len() > 1 ==> frames.drop_last().last() == frames[frames.len() - 2],
{
    let less = frames.drop_last();
    assert forall|i: int| 0 <= i < less.len() implies #[trigger] stands(less, i) by {
        assert(stands(frames, i));
    }
    assert(stands(frames, frames.len() - 1));
}

/// Another frame of the same kind may take the place of the one on top.
proof fn lemma_replace(frames: Seq<machine::FrameModel>, f: machine::FrameModel)
    requires
        stacked(frames),
        frames.len() > 0,
        !(f is Capture),
        !(frames.last() is Capture),
        (f is Expand) == (frames.last() is Expand),
    ensures
        stacked(frames.drop_last().push(f)),
{
    lemma_pop(frames);
    let less = frames.drop_last();
    assert(less.push(f)[less.len() as int] == f);
    if less.len() > 0 {
        assert(less.push(f)[less.len() - 1] == frames[frames.len() - 2]);
    }
    assert(stands(less.push(f), less.len() as int));
    lemma_push(less, f);
}

/// A new expansion over a frame that waits for words.
proof fn lemma_expand(c: machine::Config, words: Seq<Seq<char>>, patterns: bool)
    requires
        stacked(c.frames),
        c.frames.len() > 0,
        takes_words(c.frames.last()),
    ensures
        shaped(executor::begin_expand(c, words, patterns)),
{
    let d = executor::begin_expand(c, words, patterns);
    assert(d.frames[c.frames.len() as int] is Expand);
    assert(d.frames[c.frames.len() - 1] == c.frames.last());
    lemma_push(c.frames, d.frames.last());
}

/// A new frame, over one that takes a status.
proof fn lemma_push_plain(frames: Seq<machine::FrameModel>, f: machine::FrameModel)
    requires
        stacked(frames),
        status_fits(frames),
        !(f is Expand),
        !(f is Capture),
    ensures
        stacked(frames.push(f)),
{
    assert(frames.push(f)[frames.len() as int] == f);
    if frames.len() > 0 {
        assert(frames.push(f)[frames.len() - 1] == frames.last());
    }
    lemma_push(frames, f);
}

/// What is left below a frame that hands down a status takes one.
proof fn lemma_below(frames: Seq<machine::FrameModel>)
    requires
        stacked(frames),
        frames.len() > 0,
        !(frames.last() is Expand),
        !(frames.last() is Capture),
    ensures
        stacked(frames.drop_last()),
        status_fits(frames.drop_last()),
{
    lemma_pop(frames);
}

proof fn lemma_shape_branch(
    c: machine::Config,
    branches: Seq<(Seq<syntax::JobModel>, Seq<syntax::JobModel>)>,
    other: Option<Seq<syntax::JobModel>>,
)
    requires
        stacked(c.frames),
        status_fits(c.frames),
    ensures
        shaped(executor::next_branch(c, branches, other)),
        !(executor::next_branch(c, branches, other).control is Over),
{
    if branches.len() > 0 {
        lemma_push_plain(
            c.frames,
            machine::FrameModel::If { body: branches[0].1, rest: branches.skip(1), other },
        );
    }
}

proof fn lemma_shape_arm(
    c: machine::Config,
    subject: Seq<char>,
    arms: Seq<syntax::CaseArmModel>,
)
    requires
        stacked(c.frames),
        status_fits(c.frames),
    ensures
        shaped(executor::next_arm(c, subject, arms)),
        !(executor::next_arm(c, subject, arms).control is Over),
{
    if arms.len() > 0 {
        let f = machine::FrameModel::CaseArms { subject, body: arms[0].body, rest: arms.skip(1) };
        lemma_push_plain(c.frames, f);
        lemma_expand(c.push(f), arms[0].patterns, true);
    }
}

proof fn lemma_shape_unit(c: machine::Config, unit: syntax::UnitModel)
    requires
        stacked(c.frames),
        status_fits(c.frames),
    ensures
        shaped(executor::run_unit_at(c, unit)),
        !(executor::run_unit_at(c, unit).control is Over),
{
    match unit {
        syntax::UnitModel::Pipeline(p) => {
            if p.commands.len() == 1 && !p.background {
                let f = machine::FrameModel::Simple {
                    redirects: redirect::plain(p.commands[0].redirects),
                };
                lemma_push_plain(c.frames, f);
                lemma_expand(
                    c.push(f),
                    executor::alias_args(p.commands[0].args, c.st.aliases),
                    false,
                );
            } else {
                lemma_push_plain(c.frames, executor::run_unit_at(c, unit).frames.last());
            }
        },
        syntax::UnitModel::Compound(cmd) => match cmd {
            syntax::CompoundModel::If(chain) => {
                lemma_shape_branch(c, chain.branches, chain.else_body);
            },
            syntax::CompoundModel::For { var, words, body } => {
                let f = machine::FrameModel::ForWords { var, body };
                lemma_push_plain(c.frames, f);
                lemma_expand(c.push(f), words, false);
            },
            syntax::CompoundModel::While { cond, body, until } => {
                lemma_push_plain(
                    c.frames,
                    machine::FrameModel::WhileCond { cond, body, until, last: 0 },
                );
            },
            syntax::CompoundModel::Case { word, arms } => {
                let f = machine::FrameModel::CaseWord { arms };
                lemma_push_plain(c.frames, f);
                lemma_expand(c.push(f), seq![word], false);
            },
            syntax::CompoundModel::FunctionDef { name, body } => {},
        },
        syntax::UnitModel::Group(jobs) => {},
    }
}

proof fn lemma_shape_status(c: machine::Config, s: i32)
    requires
        stacked(c.frames),
        status_fits(c.frames),
    ensures
        shaped(executor::on_status(c, s)),
        c.frames.len() > 0 ==> !(executor::on_status(c, s).control is Over),
{
    if c.frames.len() > 0 {
        let top = c.frames.last();
        let d = executor::on_status(c, s);
        lemma_pop(c.frames);
        if !(top is Capture) {
            lemma_below(c.frames);
        }
        match top {
            machine::FrameModel::If { body, rest, other } => {
                if s != 0 {
                    lemma_shape_branch(c.pop(), rest, other);
                }
            },
            machine::FrameModel::For { var, items, body } => {
                if items.len() > 0 {
                    lemma_replace(c.frames, d.frames.last());
                }
            },
            machine::FrameModel::WhileCond { cond, body, until, last } => {
                if (s == 0) != until {
                    lemma_replace(c.frames, d.frames.last());
                }
            },
            machine::FrameModel::WhileBody { cond, body, until } => {
                lemma_replace(c.frames, d.frames.last());
            },
            _ => {},
        }
    }
}

proof fn lemma_shape_words(c: machine::Config, words: Seq<Seq<char>>)
    requires
        stacked(c.frames),
        c.frames.len() > 0,
        takes_words(c.frames.last()),
    ensures
        shaped(executor::on_words(c, words)),
        !(executor::on_words(c, words).control is Over),
{
    let d = executor::on_words(c, words);
    lemma_below(c.frames);
    match c.frames.last() {
        machine::FrameModel::ForWords { var, body } => {
            lemma_replace(c.frames, d.frames.last());
        },
        machine::FrameModel::CaseWord { arms } => {
            lemma_shape_arm(c.pop(), executor::first_word(words), arms);
        },
        machine::FrameModel::CaseArms { subject, body, rest } => {
            if !executor::matches_from(words, 0, subject) {
                lemma_shape_arm(c.pop(), subject, rest);
            }
        },
        machine::FrameModel::Stages(s) => {
            if executor::split_words_of(words).1.len() > 0 {
                lemma_replace(c.frames, d.frames.last());
            }
        },
        _ => {},
    }
}

/// What the machine is about to do goes on to fit what it comes back to: no
/// step leads astray. Only a machine with nothing to come back to is over.
pub proof fn law_steps_keep_shape(c: machine::Config)
    requires
        shaped(c),
    ensures
        shaped(executor::step(c)),
        executor::step(c).control is Over ==> c.control is Over || (c.frames.len() == 0 && (
        c.control is Status || c.control is Exit)),
{
    let d = executor::step(c);
    if c.frames.len() > 0 {
        lemma_pop(c.frames);
    }
    match c.control {
        machine::ControlModel::Start(jobs) => {
            lemma_push_plain(c.frames, d.frames.last());
        },
        machine::ControlModel::NextJob => {
            lemma_below(c.frames);
            if let machine::FrameModel::Jobs { rest, prev } = c.frames.last() {
                if rest.len() > 0 {
                    lemma_replace(c.frames, d.frames.last());
                }
            }
        },
        machine::ControlModel::Run(unit) => {
            lemma_shape_unit(c, unit);
        },
        machine::ControlModel::Status(s) => {
            lemma_shape_status(c, s);
        },
        machine::ControlModel::Exit(code) => {
            if c.frames.len() > 0 && !(c.frames.last() is Capture) {
                lemma_below(c.frames);
            }
        },
        machine::ControlModel::NextWord => {
            if let machine::FrameModel::Expand(e) = c.frames.last() {
                if e.words.len() > 0 {
                    lemma_replace(c.frames, d.frames.last());
                }
            }
        },
        machine::ControlModel::Resolve => {
            lemma_replace(c.frames, d.frames.last());
        },
        machine::ControlModel::Output(t) => {
            lemma_replace(c.frames, d.frames.last());
        },
        machine::ControlModel::Words(words) => {
            lemma_shape_words(c, words);
        },
        machine::ControlModel::Invoke(words) => {
            if words.len() > 0 && !builtins::builtin_name(words[0]) && table::lookup(
                c.st.functions,
                words[0],
            ) is Some {
                lemma_push_plain(c.frames, d.frames.last());
            }
        },
        machine::ControlModel::NextStage => {
            lemma_below(c.frames);
            if let machine::FrameModel::Stages(s) = c.frames.last() {
                if s.rest.len() > 0 {
                    let f = machine::FrameModel::Stages(
                        machine::StagesModel {
                            redirects: redirect::plain(s.rest[0].redirects),
                            rest: s.rest.skip(1),
                            ..s
                        },
                    );
                    lemma_replace(c.frames, f);
                    lemma_expand(
                        c.replace(f),
                        executor::alias_args(s.rest[0].args, c.st.aliases),
                        false,
                    );
                }
            }
        },
        _ => {},
    }
}

/// A run keeps the shape, however long it goes on.
pub proof fn law_runs_keep_shape(c: machine::Config, n: nat)
    requires
        shaped(c),
    ensures
        shaped(executor::after_steps(c, n)),
    decreases n,
{
    if n > 0 && !executor::resting(c) {
        law_steps_keep_shape(c);
        law_runs_keep_shape(executor::step(c), (n - 1) as nat);
    }
}

/// A machine that is about to run jobs, or a stage of a pipeline, has the
/// shape.
pub proof fn law_new_machines_are_shaped(
    jobs: Seq<syntax::JobModel>,
    words: Seq<Seq<char>>,
    st: state::StateModel,
)
    ensures
        shaped(
            machine::Config {
                control: machine::ControlModel::Start(jobs),
                frames: Seq::empty(),
                lines: Seq::empty(),
                st,
            },
        ),
        shaped(
            machine::Config {
                control: machine::ControlModel::Invoke(words),
                frames: seq![
                    machine::FrameModel::Jobs { rest: Seq::empty(), prev: Connector::Sequence },
                ],
                lines: Seq::empty(),
                st,
            },
        ),
{
}

/// Answers keep the shape too, and none of them ends a run by itself.
pub proof fn law_answers_keep_shape(c: machine::Config, a: machine::AnswerModel)
    requires
        shaped(c),
    ensures
        shaped(executor::answered(c, a)),
        executor::answered(c, a).control is Over ==> c.control is Over,
{
    let d = executor::answered(c, a);
    if c.frames.len() > 0 {
        lemma_pop(c.frames);
    }
    match (c.control, a) {
        (
            machine::ControlModel::Ask(machine::ActionModel::Glob { pattern, literal }),
            machine::AnswerModel::Paths(paths),
        ) => {
            lemma_replace(c.frames, d.frames.last());
        },
        (
            machine::ControlModel::Ask(machine::ActionModel::BeginCapture { jobs }),
            machine::AnswerModel::Began(outcome),
        ) => {
            if outcome is Ok {
                let f = d.frames.last();
                assert(c.frames.push(f)[c.frames.len() as int] == f);
                assert(c.frames.push(f)[c.frames.len() - 1] == c.frames.last());
                lemma_push(c.frames, f);
            }
        },
        (
            machine::ControlModel::Ask(machine::ActionModel::OpenOutput { redirect, words }),
            machine::AnswerModel::Opened(outcome),
        ) => {
            if outcome is Ok {
                lemma_push_plain(c.frames, d.frames.last());
            }
        },
        (
            machine::ControlModel::Ask(machine::ActionModel::Spawn { .. }),
            machine::AnswerModel::Spawned(outcome),
        ) => {
            lemma_below(c.frames);
            if outcome is Ok {
                lemma_replace(c.frames, d.frames.last());
            }
        },
        _ => {},
    }
}

// ---------------------------------------------------------------------------
// Runs.
// ---------------------------------------------------------------------------

/// One moment of a run follows from the other: by a step or by an answer.
pub open spec fn linked(c: machine::Config, d: machine::Config) -> bool {
    d == executor::step(c) || exists|a: machine::AnswerModel| d == #[trigger] executor::answered(
        c,
        a,
    )
}

/// The moments of a run.
pub open spec fn is_run(tr: Seq<machine::Config>) -> bool {
    forall|i: int| 0 <= i < tr.len() - 1 ==> linked(#[trigger] tr[i], tr[i + 1])
}

/// The frames below the one on top are the same.
pub open spec fn same_below(
    before: Seq<machine::FrameModel>,
    after: Seq<machine::FrameModel>,
) -> bool {
    before.len() > 0 ==> after.len() >= before.len() - 1 && after.take(before.len() - 1)
        == before.drop_last()
}

proof fn lemma_same_below(before: Seq<machine::FrameModel>, f: machine::FrameModel, g: machine::FrameModel)
    ensures
        same_below(before, before),
        same_below(before, before.push(f)),
        same_below(before, before.push(f).push(g)),
        before.len() > 0 ==> same_below(before, before.drop_last()),
        before.len() > 0 ==> same_below(before, before.drop_last().push(f)),
        before.len() > 0 ==> same_below(before, before.drop_last().push(f).push(g)),
{
    if before.len() > 0 {
        let n = before.len() - 1;
        assert(before.take(n) =~= before.drop_last());
        assert(before.push(f).take(n) =~= before.drop_last());
        assert(before.push(f).push(g).take(n) =~= before.drop_last());
        assert(before.drop_last().take(n) =~= before.drop_last());
        assert(before.drop_last().push(f).take(n) =~= before.drop_last());
        assert(before.drop_last().push(f).push(g).take(n) =~= before.drop_last());
    }
}

/// A step touches the frame on top alone.
proof fn lemma_step_local(c: machine::Config)
    ensures
        same_below(c.frames, executor::step(c).frames),
{
    let d = executor::step(c);
    let n = d.frames.len();
    if n >= 2 {
        lemma_same_below(c.frames, d.frames[n - 2], d.frames[n - 1]);
    }
    if n >= 1 {
        lemma_same_below(c.frames, d.frames[n - 1], d.frames[n - 1]);
    } else {
        lemma_same_below(c.frames, arbitrary(), arbitrary());
    }
}

/// So does an answer.
proof fn lemma_answer_local(c: machine::Config, a: machine::AnswerModel)
    ensures
        same_below(c.frames, executor::answered(c, a).frames),
{
    let d = executor::answered(c, a);
    let n = d.frames.len();
    if n >= 1 {
        lemma_same_below(c.frames, d.frames[n - 1], d.frames[n - 1]);
    } else {
        lemma_same_below(c.frames, arbitrary(), arbitrary());
    }
}

proof fn lemma_linked_local(c: machine::Config, d: machine::Config)
    requires
        linked(c, d),
    ensures
        same_below(c.frames, d.frames),
{
    if d == executor::step(c) {
        lemma_step_local(c);
    } else {
        let a = choose|a: machine::AnswerModel| d == #[trigger] executor::answered(c, a);
        lemma_answer_local(c, a);
    }
}

/// What becomes of a command substitution, a function call or a redirection on
/// top: it stays, or it goes and puts back what it had changed.
proof fn lemma_guard(c: machine::Config, d: machine::Config)
    requires
        linked(c, d),
        c.frames.len() > 0,
        c.frames.last() is Capture || c.frames.last() is Call || c.frames.last() is Diverted,
    ensures
        d.frames.len() >= c.frames.len() ==> d.frames.take(c.frames.len() as int) == c.frames,
        d.frames.len() < c.frames.len() ==> match c.frames.last() {
            machine::FrameModel::Capture { saved } => d.st == saved && d.control is Output,
            machine::FrameModel::Call { saved } => d.st.positional == saved,
            _ => d.control matches machine::ControlModel::Ask(a) && a is RestoreOutput,
        },
{
    let n = c.frames.len() as int;
    assert(c.frames.take(n) =~= c.frames);
    assert(forall|f: machine::FrameModel|
        #![trigger c.frames.push(f)]
        c.frames.push(f).take(n) =~= c.frames);
    assert(forall|f: machine::FrameModel, g: machine::FrameModel|
        #![trigger c.frames.push(f).push(g)]
        c.frames.push(f).push(g).take(n) =~= c.frames);
    if d != executor::step(c) {
        let a = choose|a: machine::AnswerModel| d == #[trigger] executor::answered(c, a);
        assert(d == executor::answered(c, a));
    }
}

/// A guard frame stays where it is as long as the run does not fall below it,
/// and is the one that lets the run fall below.
proof fn lemma_guard_run(tr: Seq<machine::Config>, k: int, i: int)
    requires
        is_run(tr),
        0 <= i < tr.len() - 1,
        0 <= k,
        tr[0].frames.len() == k + 1,
        tr[0].frames.last() is Capture || tr[0].frames.last() is Call || tr[0].frames.last() is Diverted,
        forall|j: int| 0 <= j < tr.len() - 1 ==> (#[trigger] tr[j]).frames.len() > k,
    ensures
        tr[i].frames.take(k + 1) == tr[0].frames,
    decreases i,
{
    if i == 0 {
        assert(tr[0].frames.take(k + 1) =~= tr[0].frames);
    } else {
        lemma_guard_run(tr, k, i - 1);
        let c = tr[i - 1];
        let d = tr[i];
        assert(linked(c, d));
        assert(d.frames.len() > k);
        if c.frames.len() == k + 1 {
            assert(c.frames.take(k + 1) =~= c.frames);
            lemma_guard(c, d);
        } else {
            lemma_linked_local(c, d);
            let m = c.frames.len() - 1;
            assert(d.frames.take(k + 1) =~= d.frames.take(m).take(k + 1));
            assert(c.frames.take(k + 1) =~= c.frames.drop_last().take(k + 1));
        }
    }
}

#[verifier::rlimit(40)]
proof fn lemma_guard_end(tr: Seq<machine::Config>, k: int)
    requires
        is_run(tr),
        tr.len() > 1,
        0 <= k,
        tr[0].frames.len() == k + 1,
        tr[0].frames.last() is Capture || tr[0].frames.last() is Call || tr[0].frames.last() is Diverted,
        forall|j: int| 0 <= j < tr.len() - 1 ==> (#[trigger] tr[j]).frames.len() > k,
        tr.last().frames.len() == k,
    ensures
        match tr[0].frames.last() {
            machine::FrameModel::Capture { saved } => tr.last().st == saved
                && tr.last().control is Output,
            machine::FrameModel::Call { saved } => tr.last().st.positional == saved,
            _ => tr.last().control matches machine::ControlModel::Ask(a) && a is RestoreOutput,
        },
{
    let n = tr.len() - 2;
    lemma_guard_run(tr, k, n);
    let c = tr[n];
    let d = tr[n + 1];
    assert(linked(c, d));
    assert(c.frames.len() > k);
    if c.frames.len() > k + 1 {
        lemma_linked_local(c, d);
    } else {
        assert(c.frames.take(k + 1) =~= c.frames);
        lemma_guard(c, d);
    }
}

/// A part of a run that begins with `tr[0]` on top of `k` frames and ends when
/// it first falls back to these.
pub open spec fn excursion(tr: Seq<machine::Config>, k: int) -> bool {
    &&& is_run(tr)
    &&& tr.len() > 1
    &&& tr[0].frames.len() == k + 1
    &&& forall|j: int| 0 <= j < tr.len() - 1 ==> (#[trigger] tr[j]).frames.len() > k
    &&& tr.last().frames.len() == k
}

/// What an excursion is on top of stays as it is.
pub proof fn lemma_floor(tr: Seq<machine::Config>, k: int, i: int)
    requires
        excursion(tr, k),
        0 <= k,
        0 <= i < tr.len(),
    ensures
        tr[i].frames.take(k) == tr[0].frames.take(k),
    decreases i,
{
    if i > 0 {
        lemma_floor(tr, k, i - 1);
        let c = tr[i - 1];
        let d = tr[i];
        assert(linked(c, d));
        assert(c.frames.len() > k);
        lemma_linked_local(c, d);
        assert(d.frames.take(k) =~= d.frames.take(c.frames.len() - 1).take(k));
        assert(c.frames.take(k) =~= c.frames.drop_last().take(k));
    }
}

/// A command substitution is isolated: whatever its commands do, when it is
/// over the shell is in the state in which it was before, variables,
/// environment, functions, jobs and all.
pub proof fn law_substitution_is_isolated(c: machine::Config, tr: Seq<machine::Config>)
    requires
        c.control matches machine::ControlModel::Ask(a) && a is BeginCapture,
        c.frames.len() > 0,
        c.frames.last() is Expand,
        excursion(tr, c.frames.len() as int),
        tr[0] == executor::answered(c, machine::AnswerModel::Began(Ok(()))),
    ensures
        tr.last().st == c.st,
        tr.last().control is Output,
{
    lemma_guard_end(tr, c.frames.len() as int);
}

/// A function call gives the caller its positional parameters back.
pub proof fn law_call_restores_parameters(
    c: machine::Config,
    words: Seq<Seq<char>>,
    tr: Seq<machine::Config>,
)
    requires
        c.control == machine::ControlModel::Invoke(words),
        words.len() > 0,
        !builtins::builtin_name(words[0]),
        table::lookup(c.st.functions, words[0]) is Some,
        excursion(tr, c.frames.len() as int),
        tr[0] == executor::step(c),
    ensures
        tr[0].st.positional == words.skip(1),
        tr.last().st.positional == c.st.positional,
{
    lemma_guard_end(tr, c.frames.len() as int);
}

/// A redirected builtin or function always has standard output put back.
pub proof fn law_output_is_restored(c: machine::Config, tr: Seq<machine::Config>)
    requires
        c.control matches machine::ControlModel::Ask(a) && a is OpenOutput,
        excursion(tr, c.frames.len() as int),
        tr[0] == executor::answered(c, machine::AnswerModel::Opened(Ok(()))),
    ensures
        tr.last().control matches machine::ControlModel::Ask(a) && a is RestoreOutput,
{
    lemma_guard_end(tr, c.frames.len() as int);
}

} // verus!
