//! The invariant of the shell's state: no name stands in a table twice, and no
//! job id is in use twice. Every step of the machine and every answer keeps it.

use crate::arith;
use crate::builtins;
use crate::executor;
use crate::expand;
use crate::jobs;
use crate::machine;
use crate::outside;
use crate::readcmd;
use crate::redirect;
use crate::report;
use crate::state;
use crate::syntax;
use crate::table;
use crate::text;
use crate::vars;
use vstd::prelude::*;

verus! {

/// No variable stands in the shell or in the environment twice.
pub open spec fn sound_vars(v: vars::VarsModel) -> bool {
    table::distinct(v.shell) && table::distinct(v.env)
}

/// The invariant of a state.
pub open spec fn sound(st: state::StateModel) -> bool {
    &&& sound_vars(st.vars)
    &&& table::distinct(st.aliases)
    &&& table::distinct(st.functions)
    &&& st.ids_fresh()
}

/// What a frame keeps of a state fits the invariant.
pub open spec fn sound_frame(f: machine::FrameModel) -> bool {
    match f {
        machine::FrameModel::Capture { saved } => sound(saved),
        machine::FrameModel::Expand(e) => table::distinct(e.snapshot),
        _ => true,
    }
}

/// The invariant of a machine on a state.
pub open spec fn sound_config(c: machine::Config) -> bool {
    &&& sound(c.st)
    &&& forall|i: int| 0 <= i < c.frames.len() ==> sound_frame(#[trigger] c.frames[i])
}

// ---------------------------------------------------------------------------
// Variables.
// ---------------------------------------------------------------------------

proof fn lemma_vars(v: vars::VarsModel, k: Seq<char>, value: Seq<char>)
    requires
        sound_vars(v),
    ensures
        sound_vars(v.set(k, value)),
        sound_vars(v.export(k, value)),
        sound_vars(v.unset(k)),
        sound_vars(v.notice(value)),
{
    table::law_names_stay_distinct(v.shell, k, value);
    table::law_names_stay_distinct(v.env, k, value);
}

proof fn lemma_exported(args: Seq<Seq<char>>, i: int, v: vars::VarsModel)
    requires
        sound_vars(v),
    ensures
        sound_vars(builtins::export_from(args, i, v).1),
    decreases args.len() - i,
{
    if 0 <= i < args.len() {
        if let Some((key, value)) = text::split_at_char(args[i], '=') {
            lemma_vars(v, key, value);
            lemma_exported(args, i + 1, v.export(key, value));
        }
    }
}

proof fn lemma_dropped(args: Seq<Seq<char>>, i: int, v: vars::VarsModel)
    requires
        sound_vars(v),
    ensures
        sound_vars(builtins::unset_from(args, i, v)),
    decreases args.len() - i,
{
    if 0 <= i < args.len() {
        lemma_vars(v, args[i], args[i]);
        lemma_dropped(args, i + 1, v.unset(args[i]));
    }
}

proof fn lemma_assigned(assigns: Seq<(Seq<char>, Seq<char>)>, i: int, v: vars::VarsModel)
    requires
        sound_vars(v),
    ensures
        sound_vars(executor::applied(assigns, i, v)),
    decreases assigns.len() - i,
{
    if 0 <= i < assigns.len() {
        lemma_vars(v, assigns[i].0, assigns[i].1);
        lemma_assigned(assigns, i + 1, v.set(assigns[i].0, assigns[i].1));
    }
}

proof fn lemma_filled(
    line: Seq<char>,
    names: Seq<Seq<char>>,
    i: int,
    v: vars::VarsModel,
)
    requires
        sound_vars(v),
    ensures
        sound_vars(readcmd::filled(line, names, i, v)),
    decreases names.len() - i,
{
    if 0 <= i < names.len() {
        let value = readcmd::share(line, names.len() as int, i);
        lemma_vars(v, names[i], value);
        lemma_filled(line, names, i + 1, v.set(names[i], value));
    }
}

proof fn lemma_braced(inner: Seq<char>, sc: arith::Scope)
    requires
        sound_vars(sc.vars),
    ensures
        sound_vars(expand::braced(inner, sc).1),
{
    if let Some((op, p)) = expand::operator_of(inner) {
        let word = expand::stripped(inner.skip(p + 2));
        lemma_vars(sc.vars, inner.take(p), word);
        lemma_vars(sc.vars, inner.take(p), expand::unset_notice(inner.take(p), word));
    }
}

proof fn lemma_reference(s: Seq<char>, j: int, quoted: bool, sc: arith::Scope, status: int)
    requires
        sound_vars(sc.vars),
    ensures
        expand::reference(s, j, quoted, sc, status) matches Some(e) ==> sound_vars(e.vars),
{
    if let Some(k) = text::find_char(s, j + 1, '}') {
        let inner = s.subrange(j + 1, k);
        lemma_braced(inner, sc);
        lemma_braced(expand::stripped(inner), sc);
    }
}

proof fn lemma_expanded(s: Seq<char>, i: int, acc: Seq<char>, sc: arith::Scope, status: int)
    requires
        sound_vars(sc.vars),
    ensures
        sound_vars(expand::expanded_from(s, i, acc, sc, status).1),
    decreases s.len() - i,
{
    if 0 <= i < s.len() {
        expand::lemma_expansion(s, i, sc, status);
        let e = expand::expansion(s, i, sc, status);
        lemma_reference(s, i + 1, false, sc, status);
        lemma_reference(s, i + 2, true, sc, status);
        lemma_expanded(
            s,
            e.next,
            acc + e.text,
            arith::Scope { vars: e.vars, positional: sc.positional },
            status,
        );
    }
}

proof fn lemma_aliases(
    args: Seq<Seq<char>>,
    i: int,
    aliases: table::Entries<Seq<char>>,
    lines: Seq<report::LineModel>,
)
    requires
        table::distinct(aliases),
    ensures
        table::distinct(builtins::alias_from(args, i, aliases, lines).1),
    decreases args.len() - i,
{
    if 0 <= i < args.len() {
        match text::split_at_char(args[i], '=') {
            Some((key, value)) => {
                table::law_names_stay_distinct(aliases, key, value);
                lemma_aliases(args, i + 1, table::with(aliases, key, value), lines);
            },
            None => {
                if let Some(value) = table::lookup(aliases, args[i]) {
                    lemma_aliases(
                        args,
                        i + 1,
                        aliases,
                        lines.push(
                            report::said("alias "@ + args[i] + "='"@ + value + "'"@),
                        ),
                    );
                }
            },
        }
    }
}

proof fn lemma_unaliased(
    args: Seq<Seq<char>>,
    i: int,
    aliases: table::Entries<Seq<char>>,
)
    requires
        table::distinct(aliases),
    ensures
        table::distinct(builtins::unalias_from(args, i, aliases)),
    decreases args.len() - i,
{
    if 0 <= i < args.len() {
        table::law_names_stay_distinct(aliases, args[i], args[i]);
        lemma_unaliased(args, i + 1, table::without(aliases, args[i]));
    }
}

// ---------------------------------------------------------------------------
// Jobs.
// ---------------------------------------------------------------------------

/// The ids of the jobs are below `next` and in use once.
pub open spec fn fine(jobs: Seq<state::RecordModel>, next: usize) -> bool {
    &&& forall|i: int| 0 <= i < jobs.len() ==> (#[trigger] jobs[i]).id < next
    &&& forall|i: int, j: int|
        0 <= i < j < jobs.len() ==> (#[trigger] jobs[i]).id != (#[trigger] jobs[j]).id
}

/// No job has the id.
pub open spec fn lacks(jobs: Seq<state::RecordModel>, id: usize) -> bool {
    forall|i: int| 0 <= i < jobs.len() ==> (#[trigger] jobs[i]).id != id
}

proof fn lemma_all_but_last(jobs: Seq<state::RecordModel>, next: usize)
    requires
        fine(jobs, next),
        jobs.len() > 0,
    ensures
        fine(jobs.drop_last(), next),
        lacks(jobs.drop_last(), jobs.last().id),
        jobs.last().id < next,
        forall|id: usize| lacks(jobs, id) ==> #[trigger] lacks(jobs.drop_last(), id) && jobs.last().id
            != id,
{
    let less = jobs.drop_last();
    assert forall|i: int| 0 <= i < less.len() implies (#[trigger] less[i]).id != jobs.last().id by {
        assert(jobs[i].id != jobs[jobs.len() - 1].id);
    }
}

proof fn lemma_filtered(
    jobs: Seq<state::RecordModel>,
    keep: spec_fn(state::RecordModel) -> bool,
    next: usize,
)
    requires
        fine(jobs, next),
    ensures
        fine(jobs.filter(keep), next),
        forall|id: usize| lacks(jobs, id) ==> #[trigger] lacks(jobs.filter(keep), id),
    decreases jobs.len(),
{
    reveal(Seq::filter);
    if jobs.len() > 0 {
        lemma_all_but_last(jobs, next);
        lemma_filtered(jobs.drop_last(), keep, next);
        assert(lacks(jobs.drop_last(), jobs.last().id));
        assert(lacks(jobs.drop_last().filter(keep), jobs.last().id));
        assert forall|id: usize| lacks(jobs, id) implies #[trigger] lacks(jobs.filter(keep), id) by {
            assert(lacks(jobs.drop_last(), id));
            assert(lacks(jobs.drop_last().filter(keep), id));
        }
    }
}

proof fn lemma_unfinished(
    jobs: Seq<state::RecordModel>,
    n: int,
    statuses: Seq<Option<i32>>,
    next: usize,
)
    requires
        fine(jobs, next),
        n <= jobs.len(),
    ensures
        fine(jobs::unfinished(jobs, n, statuses), next),
        forall|k: int|
            0 <= k < jobs::unfinished(jobs, n, statuses).len() ==> exists|m: int|
                0 <= m < n && jobs[m] == #[trigger] jobs::unfinished(jobs, n, statuses)[k],
    decreases n,
{
    if n > 0 {
        lemma_unfinished(jobs, n - 1, statuses, next);
        let before = jobs::unfinished(jobs, n - 1, statuses);
        let r = jobs::unfinished(jobs, n, statuses);
        assert forall|k: int| 0 <= k < r.len() implies exists|m: int|
            0 <= m < n && jobs[m] == #[trigger] r[k] by {
            if k < before.len() {
                assert(r[k] == before[k]);
            } else {
                assert(jobs[n - 1] == r[k]);
            }
        }
        assert forall|i: int, j: int| 0 <= i < j < r.len() implies (#[trigger] r[i]).id != (
        #[trigger] r[j]).id by {
            if j >= before.len() {
                let m = choose|m: int| 0 <= m < n - 1 && jobs[m] == before[i];
                assert(jobs[m].id != jobs[n - 1].id);
            }
        }
    }
}

proof fn lemma_job_changes(jobs: Seq<state::RecordModel>, i: int, next: usize)
    requires
        fine(jobs, next),
        0 <= i < jobs.len(),
    ensures
        fine(jobs.remove(i), next),
        fine(state::set_stopped(jobs, i, true), next),
        fine(state::set_stopped(jobs, i, false), next),
{
    let less = jobs.remove(i);
    assert forall|k: int| 0 <= k < less.len() implies (#[trigger] less[k]).id < next by {
        assert(less[k] == jobs[if k < i { k } else { k + 1 }]);
    }
    assert forall|a: int, b: int| 0 <= a < b < less.len() implies (#[trigger] less[a]).id != (
    #[trigger] less[b]).id by {
        assert(less[a] == jobs[if a < i { a } else { a + 1 }]);
        assert(less[b] == jobs[if b < i { b } else { b + 1 }]);
    }
}

// ---------------------------------------------------------------------------
// Builtins.
// ---------------------------------------------------------------------------

/// A specifier names a job of the table.
proof fn lemma_in_table(table: Seq<state::RecordModel>, arg: Option<Seq<char>>)
    ensures
        jobs::specified(table, arg) matches Some(i) ==> 0 <= i < table.len(),
{
    if let Some(a) = arg {
        let s = text::trimmed(a);
        if let Some(n) = text::parse_int(s.skip(1), 0, usize::MAX as int) {
            jobs::lemma_id_from(table, 0, n as usize as int);
            jobs::lemma_pid_from(table, 0, n as usize as i32);
        }
        if let Some(n) = text::parse_int(s, 0, usize::MAX as int) {
            jobs::lemma_id_from(table, 0, n as usize as int);
            jobs::lemma_pid_from(table, 0, n as usize as i32);
        }
        if let Some(pid) = text::parse_int(s, i32::MIN as int, i32::MAX as int) {
            jobs::lemma_pid_from(table, 0, pid as i32);
        }
    }
}

proof fn lemma_builtin_step(args: Seq<Seq<char>>, st: state::StateModel)
    requires
        sound(st),
    ensures
        sound(builtins::builtin_step(args, st).1),
{
    lemma_exported(args, 1, st.vars);
    lemma_dropped(args, 1, st.vars);
    lemma_aliases(args, 1, st.aliases, Seq::empty());
    lemma_unaliased(args, 1, st.aliases);
    lemma_filtered(
        st.jobs,
        |j: state::RecordModel| !jobs::disowned(args, st.jobs).contains(j.pid),
        st.next_job_id,
    );
    lemma_in_table(st.jobs, jobs::operand_of(args));
    if let Some(i) = jobs::specified(st.jobs, jobs::operand_of(args)) {
        lemma_job_changes(st.jobs, i, st.next_job_id);
    }
}

proof fn lemma_builtin_end(
    request: outside::RequestModel,
    reply: outside::ReplyModel,
    st: state::StateModel,
)
    requires
        sound(st),
    ensures
        sound(builtins::builtin_end(request, reply, st).1),
{
    match (request, reply) {
        (
            outside::RequestModel::ChangeDir { target },
            outside::ReplyModel::Moved { before, outcome },
        ) => {
            if let Ok(after) = outcome {
                let v = builtins::exported_if(st.vars, "OLDPWD"@, before);
                if let Some(b) = before {
                    lemma_vars(st.vars, "OLDPWD"@, b);
                }
                if let Some(a) = after {
                    lemma_vars(v, "PWD"@, a);
                }
            }
        },
        (
            outside::RequestModel::Reap { pids, style },
            outside::ReplyModel::Statuses(statuses),
        ) => {
            lemma_unfinished(st.jobs, st.jobs.len() as int, statuses, st.next_job_id);
        },
        (
            outside::RequestModel::Foreground { index, pid },
            outside::ReplyModel::Foreground(outcome),
        ) => {
            if 0 <= index < st.jobs.len() {
                lemma_job_changes(st.jobs, index, st.next_job_id);
            }
        },
        (outside::RequestModel::Wait { pids }, outside::ReplyModel::Statuses(statuses)) => {
            lemma_filtered(
                st.jobs,
                |j: state::RecordModel| !pids.contains(j.pid),
                st.next_job_id,
            );
        },
        (
            outside::RequestModel::ReadLine { raw, names },
            outside::ReplyModel::Read(outcome),
        ) => {
            if let outside::ReadModel::Bytes(bytes) = outcome {
                lemma_filled(readcmd::line_of(bytes, raw), names, 0, st.vars);
            }
        },
        _ => {},
    }
}

// ---------------------------------------------------------------------------
// Steps and answers.
// ---------------------------------------------------------------------------

proof fn lemma_pushed(c: machine::Config, f: machine::FrameModel)
    requires
        sound_config(c),
        sound_frame(f),
    ensures
        sound_config(c.push(f)),
        c.frames.len() > 0 ==> sound_config(c.replace(f)),
{
    lemma_popped(c);
    assert forall|i: int| 0 <= i < c.push(f).frames.len() implies sound_frame(
        #[trigger] c.push(f).frames[i],
    ) by {
        if i < c.frames.len() {
            assert(c.push(f).frames[i] == c.frames[i]);
        }
    }
    if c.frames.len() > 0 {
        let d = c.replace(f);
        assert forall|i: int| 0 <= i < d.frames.len() implies sound_frame(
            #[trigger] d.frames[i],
        ) by {
            if i < c.frames.len() - 1 {
                assert(d.frames[i] == c.frames[i]);
            }
        }
    }
}

proof fn lemma_popped(c: machine::Config)
    requires
        sound_config(c),
    ensures
        c.frames.len() > 0 ==> sound_config(c.pop()) && sound_frame(c.frames.last()),
{
    if c.frames.len() > 0 {
        let d = c.pop();
        assert forall|i: int| 0 <= i < d.frames.len() implies sound_frame(
            #[trigger] d.frames[i],
        ) by {
            assert(d.frames[i] == c.frames[i]);
        }
        assert(c.frames.last() == c.frames[c.frames.len() - 1]);
    }
}

proof fn lemma_begun(c: machine::Config, words: Seq<Seq<char>>, patterns: bool)
    requires
        sound_config(c),
    ensures
        sound_config(executor::begin_expand(c, words, patterns)),
{
    lemma_pushed(c, executor::begin_expand(c, words, patterns).frames.last());
}

proof fn lemma_arm(c: machine::Config, subject: Seq<char>, arms: Seq<syntax::CaseArmModel>)
    requires
        sound_config(c),
    ensures
        sound_config(executor::next_arm(c, subject, arms)),
{
    if arms.len() > 0 {
        let f = machine::FrameModel::CaseArms { subject, body: arms[0].body, rest: arms.skip(1) };
        lemma_pushed(c, f);
        lemma_begun(c.push(f), arms[0].patterns, true);
    }
}

proof fn lemma_branch(
    c: machine::Config,
    branches: Seq<(Seq<syntax::JobModel>, Seq<syntax::JobModel>)>,
    other: Option<Seq<syntax::JobModel>>,
)
    requires
        sound_config(c),
    ensures
        sound_config(executor::next_branch(c, branches, other)),
{
    if branches.len() > 0 {
        lemma_pushed(
            c,
            machine::FrameModel::If { body: branches[0].1, rest: branches.skip(1), other },
        );
    }
}

proof fn lemma_begun_unit(c: machine::Config, unit: syntax::UnitModel)
    requires
        sound_config(c),
    ensures
        sound_config(executor::run_unit_at(c, unit)),
{
    match unit {
        syntax::UnitModel::Pipeline(p) => {
            if p.commands.len() == 1 && !p.background {
                let f = machine::FrameModel::Simple {
                    redirects: redirect::plain(p.commands[0].redirects),
                };
                lemma_pushed(c, f);
                lemma_begun(
                    c.push(f),
                    executor::alias_args(p.commands[0].args, c.st.aliases),
                    false,
                );
            } else {
                lemma_pushed(c, executor::run_unit_at(c, unit).frames.last());
            }
        },
        syntax::UnitModel::Compound(cmd) => match cmd {
            syntax::CompoundModel::If(chain) => {
                lemma_branch(c, chain.branches, chain.else_body);
            },
            syntax::CompoundModel::For { var, words, body } => {
                let f = machine::FrameModel::ForWords { var, body };
                lemma_pushed(c, f);
                lemma_begun(c.push(f), words, false);
            },
            syntax::CompoundModel::While { cond, body, until } => {
                lemma_pushed(
                    c,
                    machine::FrameModel::WhileCond { cond, body, until, last: 0 },
                );
            },
            syntax::CompoundModel::Case { word, arms } => {
                let f = machine::FrameModel::CaseWord { arms };
                lemma_pushed(c, f);
                lemma_begun(c.push(f), seq![word], false);
            },
            syntax::CompoundModel::FunctionDef { name, body } => {
                table::law_names_stay_distinct(c.st.functions, name, body);
            },
        },
        syntax::UnitModel::Group(jobs) => {},
    }
}

proof fn lemma_status(c: machine::Config, s: i32)
    requires
        sound_config(c),
    ensures
        sound_config(executor::on_status(c, s)),
{
    lemma_popped(c);
    if let Some(top) = c.top() {
        match top {
            machine::FrameModel::If { body, rest, other } => {
                lemma_branch(c.pop(), rest, other);
            },
            machine::FrameModel::For { var, items, body } => {
                if items.len() > 0 {
                    lemma_vars(c.st.vars, var, items[0]);
                    lemma_pushed(
                        c,
                        machine::FrameModel::For { var, items: items.skip(1), body },
                    );
                }
            },
            machine::FrameModel::WhileCond { cond, body, until, last } => {
                lemma_pushed(c, machine::FrameModel::WhileBody { cond, body, until });
            },
            machine::FrameModel::WhileBody { cond, body, until } => {
                lemma_pushed(c, machine::FrameModel::WhileCond { cond, body, until, last: s });
            },
            _ => {},
        }
    }
}

proof fn lemma_words(c: machine::Config, words: Seq<Seq<char>>)
    requires
        sound_config(c),
    ensures
        sound_config(executor::on_words(c, words)),
{
    lemma_popped(c);
    let (assigns, rest) = executor::split_words_of(words);
    lemma_assigned(assigns, 0, c.st.vars);
    if let Some(top) = c.top() {
        match top {
            machine::FrameModel::ForWords { var, body } => {
                lemma_pushed(c, machine::FrameModel::For { var, items: words, body });
            },
            machine::FrameModel::CaseWord { arms } => {
                lemma_arm(c.pop(), executor::first_word(words), arms);
            },
            machine::FrameModel::CaseArms { subject, body, rest } => {
                lemma_arm(c.pop(), subject, rest);
            },
            machine::FrameModel::Stages(s) => {
                let d = c.on(executor::assigned(c.st, assigns));
                lemma_pushed(
                    d,
                    machine::FrameModel::Stages(
                        machine::StagesModel {
                            texts: s.texts.push(text::joined(rest, " "@)),
                            ..s
                        },
                    ),
                );
            },
            _ => {},
        }
    }
}

proof fn lemma_resolved(c: machine::Config, e: machine::ExpandModel)
    requires
        sound_config(c),
        c.frames.len() > 0,
        c.frames.last() == machine::FrameModel::Expand(e),
    ensures
        sound_config(executor::resolve(c, e)),
{
    lemma_popped(c);
    if e.pending.len() > 0 {
        lemma_pushed(
            c,
            machine::FrameModel::Expand(machine::ExpandModel { pending: e.pending.skip(1), ..e }),
        );
    } else if e.words.len() > 0 {
        let sc = arith::Scope { vars: c.st.vars, positional: c.st.positional };
        lemma_expanded(
            expand::substituted(e.words[0], e.outputs),
            0,
            Seq::empty(),
            sc,
            c.st.last_status as int,
        );
        let (w, v) = expand::resolved(e.words[0], e.outputs, sc, c.st.last_status as int);
        let d = c.on(
            state::StateModel { vars: vars::VarsModel { notices: Seq::empty(), ..v }, ..c.st },
        ).write(executor::notice_lines(v.notices));
        assert(sound_config(d));
        let after = executor::resolve(c, e);
        lemma_pushed(d, after.frames.last());
        assert(after.frames =~= d.replace(after.frames.last()).frames);
    }
}

proof fn lemma_listed(c: machine::Config, command: Seq<char>, pid: i32)
    requires
        sound_config(c),
    ensures
        sound(executor::listed(c.st, command, pid)),
        sound(executor::listed_stopped(c.st, command, pid)),
{
    if c.st.next_job_id < usize::MAX {
        state::law_job_ids(c.st, command, pid);
    }
}

proof fn lemma_stage(c: machine::Config, s: machine::StagesModel)
    requires
        sound_config(c),
        c.frames.len() > 0,
    ensures
        sound_config(executor::next_stage(c, s)),
{
    lemma_popped(c);
    if s.rest.len() > 0 {
        let f = machine::FrameModel::Stages(
            machine::StagesModel {
                redirects: redirect::plain(s.rest[0].redirects),
                rest: s.rest.skip(1),
                ..s
            },
        );
        lemma_pushed(c, f);
        lemma_begun(c.replace(f), executor::alias_args(s.rest[0].args, c.st.aliases), false);
    } else if s.pids.len() > 0 {
        lemma_listed(c, text::joined(s.texts, " | "@), s.pids.last());
    }
}

proof fn lemma_exited(c: machine::Config, code: i32)
    requires
        sound_config(c),
    ensures
        sound_config(executor::on_exit(c, code)),
{
    lemma_popped(c);
}

/// A step keeps the invariant.
pub proof fn law_steps_keep_soundness(c: machine::Config)
    requires
        sound_config(c),
    ensures
        sound_config(executor::step(c)),
{
    lemma_popped(c);
    match c.control {
        machine::ControlModel::Start(jobs) => {
            lemma_pushed(
                c,
                machine::FrameModel::Jobs { rest: jobs, prev: syntax::Connector::Sequence },
            );
        },
        machine::ControlModel::NextJob => {
            if let Some(machine::FrameModel::Jobs { rest, prev }) = c.top() {
                if rest.len() > 0 {
                    lemma_pushed(
                        c,
                        machine::FrameModel::Jobs {
                            rest: rest.skip(1),
                            prev: rest[0].connector,
                        },
                    );
                }
            }
        },
        machine::ControlModel::Run(unit) => {
            lemma_begun_unit(c, unit);
        },
        machine::ControlModel::Status(s) => {
            lemma_status(c, s);
        },
        machine::ControlModel::Exit(code) => {
            lemma_exited(c, code);
        },
        machine::ControlModel::NextWord => {
            if let Some(machine::FrameModel::Expand(e)) = c.top() {
                if e.words.len() > 0 {
                    lemma_pushed(c, executor::next_word(c, e).frames.last());
                }
            }
        },
        machine::ControlModel::Resolve => {
            if let Some(machine::FrameModel::Expand(e)) = c.top() {
                lemma_resolved(c, e);
            }
        },
        machine::ControlModel::Output(t) => {
            if let Some(machine::FrameModel::Expand(e)) = c.top() {
                lemma_pushed(c, executor::take_output(c, e, t).frames.last());
            }
        },
        machine::ControlModel::Words(words) => {
            lemma_words(c, words);
        },
        machine::ControlModel::Invoke(words) => {
            if words.len() > 0 {
                if builtins::builtin_name(words[0]) {
                    lemma_builtin_step(words, c.st);
                } else {
                    lemma_pushed(c, machine::FrameModel::Call { saved: c.st.positional });
                }
            }
        },
        machine::ControlModel::NextStage => {
            if let Some(machine::FrameModel::Stages(s)) = c.top() {
                lemma_stage(c, s);
            }
        },
        _ => {},
    }
}

/// A run keeps the invariant, however long it goes on.
pub proof fn law_runs_keep_soundness(c: machine::Config, n: nat)
    requires
        sound_config(c),
    ensures
        sound_config(executor::after_steps(c, n)),
    decreases n,
{
    if n > 0 && !executor::resting(c) {
        law_steps_keep_soundness(c);
        law_runs_keep_soundness(executor::step(c), (n - 1) as nat);
    }
}

/// An answer keeps the invariant, whatever it says.
pub proof fn law_answers_keep_soundness(c: machine::Config, a: machine::AnswerModel)
    requires
        sound_config(c),
    ensures
        sound_config(executor::answered(c, a)),
{
    lemma_popped(c);
    let d = executor::answered(c, a);
    match (c.control, a) {
        (
            machine::ControlModel::Ask(machine::ActionModel::Builtin(q)),
            machine::AnswerModel::Builtin(r),
        ) => {
            lemma_builtin_end(q, r, c.st);
        },
        (
            machine::ControlModel::Ask(machine::ActionModel::Glob { pattern, literal }),
            machine::AnswerModel::Paths(paths),
        ) => {
            if let Some(machine::FrameModel::Expand(e)) = c.top() {
                lemma_pushed(c, d.frames.last());
            }
        },
        (
            machine::ControlModel::Ask(machine::ActionModel::BeginCapture { jobs }),
            machine::AnswerModel::Began(outcome),
        ) => {
            if let (Ok(_), Some(machine::FrameModel::Expand(e))) = (outcome, c.top()) {
                lemma_pushed(c, machine::FrameModel::Capture { saved: c.st });
            }
        },
        (
            machine::ControlModel::Ask(machine::ActionModel::OpenOutput { redirect, words }),
            machine::AnswerModel::Opened(outcome),
        ) => {
            lemma_pushed(c, machine::FrameModel::Diverted);
        },
        (
            machine::ControlModel::Ask(
                machine::ActionModel::RunForeground { words, envs, redirects },
            ),
            machine::AnswerModel::Ran(ran),
        ) => {
            if let machine::RanModel::Stopped(pid) = ran {
                lemma_listed(c, text::joined(words, " "@), pid);
            }
        },
        (
            machine::ControlModel::Ask(machine::ActionModel::Spawn { .. }),
            machine::AnswerModel::Spawned(outcome),
        ) => {
            if let Some(machine::FrameModel::Stages(s)) = c.top() {
                if outcome is Ok {
                    lemma_pushed(c, d.frames.last());
                }
            }
        },
        _ => {},
    }
}

proof fn lemma_unreaped(
    jobs: Seq<state::RecordModel>,
    n: int,
    statuses: Seq<Option<i32>>,
    next: usize,
)
    requires
        fine(jobs, next),
        n <= jobs.len(),
    ensures
        fine(jobs::unreaped(jobs, n, statuses), next),
        forall|k: int|
            0 <= k < jobs::unreaped(jobs, n, statuses).len() ==> exists|m: int|
                0 <= m < n && jobs[m] == #[trigger] jobs::unreaped(jobs, n, statuses)[k],
    decreases n,
{
    if n > 0 {
        lemma_unreaped(jobs, n - 1, statuses, next);
        let before = jobs::unreaped(jobs, n - 1, statuses);
        let r = jobs::unreaped(jobs, n, statuses);
        assert forall|k: int| 0 <= k < r.len() implies exists|m: int|
            0 <= m < n && jobs[m] == #[trigger] r[k] by {
            if k < before.len() {
                assert(r[k] == before[k]);
            } else {
                assert(jobs[n - 1] == r[k]);
            }
        }
        assert forall|i: int, j: int| 0 <= i < j < r.len() implies (#[trigger] r[i]).id != (
        #[trigger] r[j]).id by {
            if j >= before.len() {
                let m = choose|m: int| 0 <= m < n - 1 && jobs[m] == before[i];
                assert(jobs[m].id != jobs[n - 1].id);
            }
        }
    }
}

/// The reaping of finished jobs keeps the invariant.
pub proof fn law_reaping_keeps_soundness(st: state::StateModel, statuses: Seq<Option<i32>>)
    requires
        sound(st),
    ensures
        sound(
            state::StateModel {
                jobs: jobs::unreaped(st.jobs, st.jobs.len() as int, statuses),
                ..st
            },
        ),
{
    lemma_unreaped(st.jobs, st.jobs.len() as int, statuses, st.next_job_id);
}

/// A new shell fits the invariant.
pub proof fn law_new_shells_are_sound()
    ensures
        sound(state::StateModel::fresh()),
{
}

} // verus!
