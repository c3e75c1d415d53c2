//! Laws of running commands: connectors, conditions, loops, cases, pipelines,
//! functions, assignments, directories and aliases.

use crate::builtins;
use crate::executor;
use crate::expand;
use crate::jobs;
use crate::machine;
use crate::outside;
use crate::outside::BuiltinResult;
use crate::pattern;
use crate::report;
use crate::state;
use crate::syntax;
use crate::syntax::Connector;
use crate::table;
use crate::text;
use crate::vars;
use vstd::prelude::*;

verus! {

/// After a job with status `s` the next one runs behind `;` in any case,
/// behind `&&` if `s` is 0, and behind `||` if it is not; `$?` is `s` then. A
/// job that does not run leaves the status alone.
pub proof fn law_connectors(c: machine::Config, s: i32, rest: Seq<syntax::JobModel>, prev: Connector)
    requires
        c.control == machine::ControlModel::Status(s),
        c.frames.len() > 0,
        c.frames.last() == (machine::FrameModel::Jobs { rest, prev }),
        rest.len() > 0,
    ensures
        executor::step(executor::step(c)).st.last_status == s,
        executor::step(executor::step(c)).frames.last() == (machine::FrameModel::Jobs {
            rest: rest.skip(1),
            prev: rest[0].connector,
        }),
        executor::step(executor::step(c)).control == if prev == Connector::Sequence || (prev
            == Connector::And && s == 0) || (prev == Connector::Or && s != 0) {
            machine::ControlModel::Run(rest[0].unit)
        } else {
            machine::ControlModel::NextJob
        },
{
}

/// A list of jobs comes to the status of the last job that ran; so does the
/// body of a group, a loop, a branch or a function.
pub proof fn law_list_status(c: machine::Config, s: i32, prev: Connector)
    requires
        c.control == machine::ControlModel::Status(s),
        c.frames.len() > 0,
        c.frames.last() == (machine::FrameModel::Jobs { rest: Seq::empty(), prev }),
    ensures
        executor::step(executor::step(c)).control == machine::ControlModel::Status(s),
        executor::step(executor::step(c)).frames == c.frames.drop_last(),
{
}

/// A loop runs its body as long as its condition succeeds, for `until` as long
/// as it fails, and comes to the status of its last body, 0 without one.
pub proof fn law_loops(
    c: machine::Config,
    s: i32,
    cond: Seq<syntax::JobModel>,
    body: Seq<syntax::JobModel>,
    until: bool,
    last: i32,
)
    requires
        c.control == machine::ControlModel::Status(s),
        c.frames.len() > 0,
    ensures
        c.frames.last() == (machine::FrameModel::WhileCond { cond, body, until, last }) ==> if (s
            == 0) != until {
            &&& executor::step(c).control == machine::ControlModel::Start(body)
            &&& executor::step(c).frames.last() == (machine::FrameModel::WhileBody {
                cond,
                body,
                until,
            })
        } else {
            &&& executor::step(c).control == machine::ControlModel::Status(last)
            &&& executor::step(c).frames == c.frames.drop_last()
        },
        c.frames.last() == (machine::FrameModel::WhileBody { cond, body, until }) ==> {
            &&& executor::step(c).control == machine::ControlModel::Start(cond)
            &&& executor::step(c).frames.last() == (machine::FrameModel::WhileCond {
                cond,
                body,
                until,
                last: s,
            })
        },
        executor::run_compound_at(
            c,
            syntax::CompoundModel::While { cond, body, until },
        ).frames.last() == (machine::FrameModel::WhileCond { cond, body, until, last: 0 }),
{
}

/// A `for` loop runs its body once for each word, with the word in its
/// variable, and comes to the status of the last body, 0 without words.
pub proof fn law_for_loops(
    c: machine::Config,
    s: i32,
    var: Seq<char>,
    items: Seq<Seq<char>>,
    body: Seq<syntax::JobModel>,
)
    requires
        c.control == machine::ControlModel::Status(s),
        c.frames.len() > 0,
        c.frames.last() == (machine::FrameModel::For { var, items, body }),
    ensures
        items.len() > 0 ==> {
            &&& executor::step(c).control == machine::ControlModel::Start(body)
            &&& executor::step(c).st.vars.value(var) == items[0]
            &&& executor::step(c).frames.last() == (machine::FrameModel::For {
                var,
                items: items.skip(1),
                body,
            })
        },
        items.len() == 0 ==> {
            &&& executor::step(c).control == machine::ControlModel::Status(s)
            &&& executor::step(c).frames == c.frames.drop_last()
        },
        executor::on_words(
            c.replace(machine::FrameModel::ForWords { var, body }),
            items,
        ).control == machine::ControlModel::Status(0),
{
    if items.len() > 0 {
        table::law_read_after_write(c.st.vars.shell, var, items[0], var);
    }
}

/// An `if` runs the body of its first branch whose condition succeeds, else
/// its `else`; without one it comes to 0.
pub proof fn law_conditions(
    c: machine::Config,
    s: i32,
    body: Seq<syntax::JobModel>,
    rest: Seq<(Seq<syntax::JobModel>, Seq<syntax::JobModel>)>,
    other: Option<Seq<syntax::JobModel>>,
)
    requires
        c.control == machine::ControlModel::Status(s),
        c.frames.len() > 0,
        c.frames.last() == (machine::FrameModel::If { body, rest, other }),
    ensures
        s == 0 ==> {
            &&& executor::step(c).control == machine::ControlModel::Start(body)
            &&& executor::step(c).frames == c.frames.drop_last()
        },
        s != 0 && rest.len() > 0 ==> {
            &&& executor::step(c).control == machine::ControlModel::Start(rest[0].0)
            &&& executor::step(c).frames.last() == (machine::FrameModel::If {
                body: rest[0].1,
                rest: rest.skip(1),
                other,
            })
        },
        s != 0 && rest.len() == 0 ==> {
            &&& executor::step(c).control == (match other {
                Some(jobs) => machine::ControlModel::Start(jobs),
                None => machine::ControlModel::Status(0),
            })
            &&& executor::step(c).frames == c.frames.drop_last()
        },
{
}

/// A `case` runs the body of its first arm of which a pattern matches the
/// subject; without one it comes to 0.
pub proof fn law_cases(
    c: machine::Config,
    subject: Seq<char>,
    patterns: Seq<Seq<char>>,
    body: Seq<syntax::JobModel>,
    rest: Seq<syntax::CaseArmModel>,
)
    requires
        c.control == machine::ControlModel::Words(patterns),
        c.frames.len() > 0,
        c.frames.last() == (machine::FrameModel::CaseArms { subject, body, rest }),
    ensures
        (exists|k: int| 0 <= k < patterns.len() && pattern::matching(#[trigger] patterns[k], subject))
            ==> {
            &&& executor::step(c).control == machine::ControlModel::Start(body)
            &&& executor::step(c).frames == c.frames.drop_last()
        },
        (forall|k: int|
            0 <= k < patterns.len() ==> !pattern::matching(#[trigger] patterns[k], subject)) ==> {
            &&& executor::step(c) == executor::next_arm(c.pop(), subject, rest)
            &&& rest.len() == 0 ==> executor::step(c).control == machine::ControlModel::Status(0)
        },
{
    lemma_matches(patterns, 0, subject);
}

proof fn lemma_matches(patterns: Seq<Seq<char>>, i: int, subject: Seq<char>)
    requires
        0 <= i <= patterns.len(),
    ensures
        executor::matches_from(patterns, i, subject) == exists|k: int|
            i <= k < patterns.len() && pattern::matching(#[trigger] patterns[k], subject),
    decreases patterns.len() - i,
{
    if i < patterns.len() {
        lemma_matches(patterns, i + 1, subject);
    }
}

/// A pipeline in the foreground comes to the status of its last stage.
pub proof fn law_pipeline_status(c: machine::Config, pids: Seq<i32>, codes: Seq<Option<i32>>)
    requires
        c.control == machine::ControlModel::Ask(machine::ActionModel::WaitStages { pids }),
        codes.len() > 0,
        codes.last() is Some,
    ensures
        executor::answered(c, machine::AnswerModel::Codes(codes)) == c.go(
            machine::ControlModel::Status(codes.last()->0),
        ),
{
}

/// A pipeline in the background is not waited for: it succeeds at once, its
/// process id is written, and it is the most recent job.
pub proof fn law_background(c: machine::Config, s: machine::StagesModel)
    requires
        c.control is NextStage,
        c.frames.len() > 0,
        c.frames.last() == machine::FrameModel::Stages(s),
        s.background,
        s.rest.len() == 0,
        s.pids.len() > 0,
        c.st.next_job_id < usize::MAX,
    ensures
        executor::step(c).control == machine::ControlModel::Status(0),
        executor::step(c).frames == c.frames.drop_last(),
        executor::step(c).lines == c.lines.push(
            report::said("[bg] pid "@ + text::decimal_int(s.pids.last() as int)),
        ),
        jobs::specified(executor::step(c).st.jobs, None) == Some(c.st.jobs.len() as int),
        executor::step(c).st.jobs.last().pid == s.pids.last(),
        !executor::step(c).st.jobs.last().stopped,
{
    let line = report::said("[bg] pid "@ + text::decimal_int(s.pids.last() as int));
    assert(c.lines + seq![line] =~= c.lines.push(line));
}

/// A program that stops in the foreground becomes a stopped job, the most
/// recent one, which `fg` and `bg` find.
pub proof fn law_stopped_programs(
    c: machine::Config,
    words: Seq<Seq<char>>,
    envs: Seq<(Seq<char>, Seq<char>)>,
    redirects: Seq<syntax::RedirectModel>,
    pid: i32,
)
    requires
        c.control == machine::ControlModel::Ask(
            machine::ActionModel::RunForeground { words, envs, redirects },
        ),
        c.st.ids_fresh(),
        c.st.next_job_id < usize::MAX,
    ensures
        ({
            let d = executor::answered(
                c,
                machine::AnswerModel::Ran(machine::RanModel::Stopped(pid)),
            );
            &&& d.st.ids_fresh()
            &&& jobs::specified(d.st.jobs, None) == Some(c.st.jobs.len() as int)
            &&& d.st.jobs.last().pid == pid
            &&& d.st.jobs.last().stopped
            &&& d.st.jobs.last().command == text::joined(words, " "@)
        }),
{
    state::law_job_ids(c.st, text::joined(words, " "@), pid);
}

/// A plain assignment sets the variable in the shell, exports nothing, and
/// succeeds.
pub proof fn law_plain_assignment(
    c: machine::Config,
    name: Seq<char>,
    value: Seq<char>,
    redirects: Seq<syntax::RedirectModel>,
)
    requires
        expand::valid_name(name),
    ensures
        executor::run_simple(c, seq![name + seq!['='] + value], redirects).control
            == machine::ControlModel::Status(0),
        executor::run_simple(c, seq![name + seq!['='] + value], redirects).st.vars.value(name)
            == value,
        executor::run_simple(c, seq![name + seq!['='] + value], redirects).st.vars.env
            == c.st.vars.env,
{
    let word = name + seq!['='] + value;
    let args = seq![word];
    lemma_split_word(name, value, 0);
    assert(word.take(name.len() as int) =~= name);
    assert(word.skip((name.len() + 1) as int) =~= value);
    reveal_with_fuel(executor::split_from, 2);
    reveal_with_fuel(executor::applied, 2);
    assert(args.skip(1) =~= Seq::<Seq<char>>::empty());
    let assigns = Seq::<(Seq<char>, Seq<char>)>::empty().push((name, value));
    assert(executor::split_words_of(args) == (assigns, Seq::<Seq<char>>::empty()));
    assert(executor::applied(assigns, 0, c.st.vars) == c.st.vars.set(name, value));
    vars::law_export_and_assignment(c.st.vars, name, value);
}

pub proof fn lemma_split_word(name: Seq<char>, value: Seq<char>, i: int)
    requires
        expand::valid_name(name),
        0 <= i <= name.len(),
    ensures
        text::find_char(name + seq!['='] + value, i, '=') == Some(name.len() as int),
    decreases name.len() - i,
{
    let word = name + seq!['='] + value;
    if i < name.len() {
        assert(word[i] == name[i]);
        assert(i > 0 ==> crate::arith::name_char(name[i]));
        lemma_split_word(name, value, i + 1);
    } else {
        assert(word[i] == '=');
    }
}

/// A function, once defined, runs when it is called, with the words of the
/// call as its positional parameters.
pub proof fn law_defined_functions_run(
    c: machine::Config,
    name: Seq<char>,
    body: Seq<syntax::JobModel>,
    words: Seq<Seq<char>>,
)
    requires
        !builtins::builtin_name(name),
        words.len() > 0,
        words[0] == name,
    ensures
        ({
            let d = executor::run_compound_at(
                c,
                syntax::CompoundModel::FunctionDef { name, body },
            );
            let e = executor::invoke(d, words);
            &&& d.control == machine::ControlModel::Status(0)
            &&& e.control == machine::ControlModel::Start(body)
            &&& e.st.positional == words.skip(1)
        }),
{
    table::law_read_after_write(c.st.functions, name, body, name);
}

/// `cd -` leads back. After a change of directory from `a` to `b` it asks for
/// `a`. Where that succeeds, `PWD` is `a`, `OLDPWD` is `b`, and `b` is the
/// directory before; where it is refused, nothing changes.
pub proof fn law_cd_back(
    target: Seq<char>,
    a: Seq<char>,
    b: Seq<char>,
    e: Seq<char>,
    st: state::StateModel,
)
    ensures
        ({
            let there = builtins::cd_end(target, Some(a), Ok(Some(b)), st).1;
            let (done, back) = builtins::cd_end(a, Some(b), Ok(Some(a)), there);
            let (refused, same) = builtins::cd_end(a, Some(b), Err(e), there);
            &&& builtins::cd_step(seq!["cd"@, "-"@], there) == outside::asking(
                Seq::empty(),
                outside::RequestModel::ChangeDir { target: a },
            )
            &&& done == outside::ended(Seq::empty(), 0)
            &&& back.prev_dir == Some(b)
            &&& table::lookup(back.vars.shell, "PWD"@) == Some(a)
            &&& table::lookup(back.vars.shell, "OLDPWD"@) == Some(b)
            &&& refused == outside::ended(
                seq![report::complained("cd: "@ + a + ": "@ + e)],
                1,
            )
            &&& same == there
        }),
{
    let there = builtins::cd_end(target, Some(a), Ok(Some(b)), st).1;
    let old_set = table::with(there.vars.shell, "OLDPWD"@, b);
    reveal_strlit("PWD");
    reveal_strlit("OLDPWD");
    assert("PWD"@.len() != "OLDPWD"@.len());
    table::law_read_after_write(there.vars.shell, "OLDPWD"@, b, "OLDPWD"@);
    table::law_read_after_write(old_set, "PWD"@, a, "OLDPWD"@);
}

proof fn lemma_alias_stays(
    args: Seq<Seq<char>>,
    i: int,
    aliases: table::Entries<Seq<char>>,
    lines: Seq<report::LineModel>,
)
    ensures
        !leaves(builtins::alias_from(args, i, aliases, lines).0),
    decreases args.len() - i,
{
    if 0 <= i < args.len() {
        match text::split_at_char(args[i], '=') {
            Some((key, value)) => {
                lemma_alias_stays(args, i + 1, table::with(aliases, key, value), lines);
            },
            None => {
                if let Some(value) = table::lookup(aliases, args[i]) {
                    let line = report::said("alias "@ + args[i] + "='"@ + value + "'"@);
                    lemma_alias_stays(args, i + 1, aliases, lines.push(line));
                }
            },
        }
    }
}

/// Of all builtins only `exit` leaves the shell: with its operand as the code,
/// 0 without a number, and without a change of the state. No other builtin
/// does, neither at once nor after any reply.
pub proof fn law_only_exit_leaves(
    args: Seq<Seq<char>>,
    st: state::StateModel,
    request: outside::RequestModel,
    reply: outside::ReplyModel,
)
    requires
        args.len() > 0,
    ensures
        args[0] == "exit"@ ==> builtins::builtin_step(args, st) == (
            outside::StepModel {
                lines: Seq::empty(),
                next: outside::NextModel::Done(BuiltinResult::Exit(builtins::exit_code(args))),
            },
            st,
        ),
        args[0] != "exit"@ ==> !leaves(builtins::builtin_step(args, st).0),
        !leaves(builtins::builtin_end(request, reply, st).0),
{
    reveal_strlit("exit");
    reveal_strlit("cd");
    reveal_strlit("pwd");
    assert("exit"@.len() == 4 && "cd"@.len() == 2 && "pwd"@.len() == 3);
    lemma_alias_stays(args, 1, st.aliases, Seq::empty());
}

/// A step leaves the shell.
pub open spec fn leaves(step: outside::StepModel) -> bool {
    step.next matches outside::NextModel::Done(r) && r is Exit
}

/// A command whose first word is an alias runs with the words of the alias in
/// its place, and without it once the alias is gone.
pub proof fn law_aliases(
    aliases: table::Entries<Seq<char>>,
    name: Seq<char>,
    value: Seq<char>,
    args: Seq<Seq<char>>,
)
    requires
        args.len() > 0,
        args[0] == name,
    ensures
        executor::alias_args(args, table::with(aliases, name, value)) == text::words(value)
            + args.skip(1),
        executor::alias_args(args, table::without(aliases, name)) == args,
{
    table::law_read_after_write(aliases, name, value, name);
    table::law_read_after_remove(aliases, name, name);
}

/// Where a run comes back and goes on makes no difference: steps add up.
pub proof fn law_runs_add_up(c: machine::Config, m: nat, n: nat)
    ensures
        executor::after_steps(executor::after_steps(c, m), n) == executor::after_steps(c, m + n),
    decreases m,
{
    if m > 0 && !executor::resting(c) {
        law_runs_add_up(executor::step(c), (m - 1) as nat, n);
    } else if executor::resting(c) {
        assert(executor::after_steps(c, m) == c);
        assert(executor::after_steps(c, n) == c);
    }
}

} // verus!
