//! The builtin commands. A builtin runs in steps: it writes lines and is done,
//! or asks something of the world outside and goes on with the reply.

use crate::jobs;
use crate::jobs::{
    builtin_bg, builtin_disown, builtin_fg, builtin_jobs, builtin_kill, builtin_wait, finish_fg,
    finish_jobs, finish_kill, finish_wait,
};
use crate::outside;
use crate::outside::{ask, end, Next, Reply, Request, Step};
use crate::readcmd;
use crate::readcmd::{builtin_read, finish_read};
use crate::report;
use crate::report::{complain, concat, concat3, no_lines, say, write_text, Line};
use crate::state;
use crate::table;
use crate::table::Table;
use crate::testcmd;
use crate::testcmd::{builtin_test, eval_test, operands_of, path_in_test};
use crate::text;
use crate::text::{
    first_is, join_from, parse_i32, same, slice_text, split_once, to_chars,
};
use crate::vars;
use vstd::prelude::*;

pub use crate::jobs::reap_finished_jobs;
pub use crate::outside::BuiltinResult;
pub use crate::state::{JobRecord, ShellState};

verus! {

/// The name of a builtin.
pub open spec fn builtin_name(s: Seq<char>) -> bool {
    ||| s == "cd"@
    ||| s == "pwd"@
    ||| s == "exit"@
    ||| s == "export"@
    ||| s == "unset"@
    ||| s == "echo"@
    ||| s == "alias"@
    ||| s == "unalias"@
    ||| s == "which"@
    ||| s == "type"@
    ||| s == "test"@
    ||| s == "["@
    ||| s == "jobs"@
    ||| s == "fg"@
    ||| s == "bg"@
    ||| s == "wait"@
    ||| s == "disown"@
    ||| s == "kill"@
    ||| s == "read"@
}

/// Whether a command is a builtin.
pub fn is_builtin(name: &str) -> (r: bool)
    ensures
        r == builtin_name(name@),
{
    same(name, "cd") || same(name, "pwd") || same(name, "exit") || same(name, "export") || same(
        name,
        "unset",
    ) || same(name, "echo") || same(name, "alias") || same(name, "unalias") || same(name, "which")
        || same(name, "type") || same(name, "test") || same(name, "[") || same(name, "jobs")
        || same(name, "fg") || same(name, "bg") || same(name, "wait") || same(name, "disown")
        || same(name, "kill") || same(name, "read")
}

// ---------------------------------------------------------------------------
// Directories.
// ---------------------------------------------------------------------------

/// Where `cd` goes: home without an operand, the directory before for `-`.
pub open spec fn cd_target(args: Seq<Seq<char>>, st: state::StateModel) -> Option<Seq<char>> {
    if args.len() < 2 {
        match table::lookup(st.vars.env, "HOME"@) {
            Some(home) => Some(home),
            None => Some("/"@),
        }
    } else if args[1] == "-"@ {
        st.prev_dir
    } else {
        Some(args[1])
    }
}

/// What `cd` begins with.
pub open spec fn cd_step(args: Seq<Seq<char>>, st: state::StateModel) -> outside::StepModel {
    match cd_target(args, st) {
        Some(target) => outside::asking(
            Seq::empty(),
            outside::RequestModel::ChangeDir { target },
        ),
        None => outside::ended(seq![report::complained("cd: OLDPWD is not set"@)], 1),
    }
}

/// Implements `cd`: asks for the change of directory.
pub fn builtin_cd(args: &[String], state: &ShellState) -> (r: Step)
    ensures
        r.model() == cd_step(text::texts(args@), state.model()),
{
    let target = if args.len() < 2 {
        match state.vars.env.get("HOME") {
            Some(home) => home.clone(),
            None => "/".to_owned(),
        }
    } else if same(args[1].as_str(), "-") {
        match &state.prev_dir {
            Some(p) => p.clone(),
            None => {
                let mut lines = no_lines();
                complain(&mut lines, "cd: OLDPWD is not set".to_owned());
                let r = end(lines, 1);
                assert(r.model().lines =~= seq![report::complained("cd: OLDPWD is not set"@)]);
                return r;
            },
        }
    } else {
        args[1].clone()
    };
    ask(Request::ChangeDir { target })
}

/// The variables with a name exported, if there is a value for it.
pub open spec fn exported_if(
    vars: vars::VarsModel,
    name: Seq<char>,
    value: Option<Seq<char>>,
) -> vars::VarsModel {
    match value {
        Some(v) => vars.export(name, v),
        None => vars,
    }
}

/// What `cd` comes to: `OLDPWD` and `PWD` follow the change, in the shell and
/// for children.
pub open spec fn cd_end(
    target: Seq<char>,
    before: Option<Seq<char>>,
    outcome: Result<Option<Seq<char>>, Seq<char>>,
    st: state::StateModel,
) -> (outside::StepModel, state::StateModel) {
    match outcome {
        Ok(after) => (
            outside::ended(Seq::empty(), 0),
            state::StateModel {
                vars: exported_if(exported_if(st.vars, "OLDPWD"@, before), "PWD"@, after),
                prev_dir: before,
                ..st
            },
        ),
        Err(e) => (
            outside::ended(seq![report::complained("cd: "@ + target + ": "@ + e)], 1),
            st,
        ),
    }
}

/// Finishes `cd`.
pub fn finish_cd(
    target: &str,
    before: Option<String>,
    outcome: Result<Option<String>, String>,
    state: &mut ShellState,
) -> (r: Step)
    ensures
        (r.model(), final(state).model()) == cd_end(
            target@,
            state::optional_text(before),
            match outcome {
                Ok(after) => Ok(state::optional_text(after)),
                Err(e) => Err(e@),
            },
            old(state).model(),
        ),
{
    match outcome {
        Ok(after) => {
            match &before {
                Some(dir) => {
                    state.vars.export("OLDPWD".to_owned(), dir.clone());
                },
                None => {},
            }
            match after {
                Some(dir) => {
                    state.vars.export("PWD".to_owned(), dir);
                },
                None => {},
            }
            state.prev_dir = before;
            end(no_lines(), 0)
        },
        Err(e) => {
            let mut lines = no_lines();
            let message = concat3("cd: ", target, ": ");
            complain(&mut lines, concat(message.as_str(), e.as_str()));
            let r = end(lines, 1);
            assert(r.model().lines =~= seq![
                report::complained("cd: "@ + target@ + ": "@ + e@),
            ]);
            r
        },
    }
}

/// What `pwd` comes to.
pub open spec fn pwd_end(outcome: Result<Seq<char>, Seq<char>>) -> outside::StepModel {
    match outcome {
        Ok(dir) => outside::ended(seq![report::said(dir)], 0),
        Err(e) => outside::ended(seq![report::complained("pwd: "@ + e)], 1),
    }
}

/// Finishes `pwd`.
pub fn finish_pwd(outcome: Result<String, String>) -> (r: Step)
    ensures
        r.model() == pwd_end(
            match outcome {
                Ok(dir) => Ok(dir@),
                Err(e) => Err(e@),
            },
        ),
{
    let mut lines = no_lines();
    match outcome {
        Ok(dir) => {
            let ghost d = dir@;
            say(&mut lines, dir);
            let r = end(lines, 0);
            assert(r.model().lines =~= seq![report::said(d)]);
            r
        },
        Err(e) => {
            complain(&mut lines, concat("pwd: ", e.as_str()));
            let r = end(lines, 1);
            assert(r.model().lines =~= seq![report::complained("pwd: "@ + e@)]);
            r
        },
    }
}

// ---------------------------------------------------------------------------
// Variables.
// ---------------------------------------------------------------------------

/// One line for each of the first `n` entries: the name and the value within
/// the given texts.
pub open spec fn entry_lines(
    t: table::Entries<Seq<char>>,
    n: int,
    a: Seq<char>,
    b: Seq<char>,
    c: Seq<char>,
) -> Seq<report::LineModel>
    decreases n,
{
    if n <= 0 {
        Seq::empty()
    } else {
        entry_lines(t, n - 1, a, b, c).push(
            report::said(a + t[n - 1].0 + b + t[n - 1].1 + c),
        )
    }
}

fn list_entries(t: &Table<String>, a: &str, b: &str, c: &str) -> (lines: Vec<Line>)
    ensures
        report::line_models(lines@) == entry_lines(
            t.model(),
            t.model().len() as int,
            a@,
            b@,
            c@,
        ),
{
    let mut lines = no_lines();
    let mut i: usize = 0;
    while i < t.entries.len()
        invariant
            i <= t.entries@.len(),
            report::line_models(lines@) == entry_lines(t.model(), i as int, a@, b@, c@),
        decreases t.entries@.len() - i,
    {
        let begin = concat3(a, t.entries[i].0.as_str(), b);
        say(&mut lines, concat3(begin.as_str(), t.entries[i].1.as_str(), c));
        i += 1;
    }
    lines
}

/// What `export` does with the assignments from the `i`th argument on: the
/// first malformed one ends it.
pub open spec fn export_from(args: Seq<Seq<char>>, i: int, vars: vars::VarsModel) -> (
    Result<(), Seq<char>>,
    vars::VarsModel,
)
    decreases args.len() - i,
{
    if i < 0 || i >= args.len() {
        (Ok(()), vars)
    } else {
        match text::split_at_char(args[i], '=') {
            Some((key, value)) => export_from(args, i + 1, vars.export(key, value)),
            None => (Err(args[i]), vars),
        }
    }
}

/// `export`: without operands the variables are listed.
pub open spec fn export_step(args: Seq<Seq<char>>, st: state::StateModel) -> (
    outside::StepModel,
    state::StateModel,
) {
    if args.len() < 2 {
        (
            outside::ended(
                entry_lines(
                    st.vars.shell,
                    st.vars.shell.len() as int,
                    "export "@,
                    "=\""@,
                    "\""@,
                ),
                0,
            ),
            st,
        )
    } else {
        let (result, vars) = export_from(args, 1, st.vars);
        let after = state::StateModel { vars, ..st };
        match result {
            Ok(_) => (outside::ended(Seq::empty(), 0), after),
            Err(word) => (
                outside::ended(
                    seq![
                        report::complained(
                            "export: "@ + word + ": invalid format, use VAR=value"@,
                        ),
                    ],
                    1,
                ),
                after,
            ),
        }
    }
}

/// Implements `export`.
pub fn builtin_export(args: &[String], state: &mut ShellState) -> (r: Step)
    ensures
        (r.model(), final(state).model()) == export_step(text::texts(args@), old(state).model()),
{
    let ghost all = text::texts(args@);
    let ghost before = state.model();
    if args.len() < 2 {
        return end(list_entries(&state.vars.shell, "export ", "=\"", "\""), 0);
    }
    let mut i: usize = 1;
    while i < args.len()
        invariant
            1 <= i <= args@.len(),
            args@.len() >= 2,
            all == text::texts(args@),
            before == old(state).model(),
            state.model() == (state::StateModel { vars: state.model().vars, ..before }),
            export_from(all, 1, before.vars) == export_from(all, i as int, state.model().vars),
        decreases args@.len() - i,
    {
        assert(all[i as int] == args@[i as int]@);
        match split_once(args[i].as_str(), '=') {
            Some((key, value)) => {
                state.vars.export(key, value);
            },
            None => {
                let mut lines = no_lines();
                complain(
                    &mut lines,
                    concat3("export: ", args[i].as_str(), ": invalid format, use VAR=value"),
                );
                let r = end(lines, 1);
                assert(r.model().lines =~= export_step(all, before).0.lines);
                return r;
            },
        }
        i += 1;
    }
    end(no_lines(), 0)
}

/// The variables without the names from the `i`th argument on.
pub open spec fn unset_from(args: Seq<Seq<char>>, i: int, vars: vars::VarsModel) -> vars::VarsModel
    decreases args.len() - i,
{
    if i < 0 || i >= args.len() {
        vars
    } else {
        unset_from(args, i + 1, vars.unset(args[i]))
    }
}

/// Implements `unset`.
pub fn builtin_unset(args: &[String], state: &mut ShellState) -> (r: Step)
    ensures
        r.model() == outside::ended(Seq::empty(), 0),
        final(state).model() == (state::StateModel {
            vars: unset_from(text::texts(args@), 1, old(state).model().vars),
            ..old(state).model()
        }),
{
    let ghost all = text::texts(args@);
    let ghost before = state.model();
    let mut i: usize = 1;
    while i < args.len()
        invariant
            1 <= i,
            i <= args@.len() || i == 1,
            all == text::texts(args@),
            state.model() == (state::StateModel { vars: state.model().vars, ..before }),
            unset_from(all, 1, before.vars) == unset_from(all, i as int, state.model().vars),
        decreases args@.len() - i,
    {
        assert(all[i as int] == args@[i as int]@);
        state.vars.unset(args[i].as_str());
        i += 1;
    }
    end(no_lines(), 0)
}

/// What `echo` writes: its operands with spaces in between, and a newline
/// unless the first of them is `-n`.
pub open spec fn echo_text(args: Seq<Seq<char>>) -> Seq<char> {
    if args.len() > 1 && args[1] == "-n"@ {
        text::joined(args.skip(2), " "@)
    } else {
        text::joined(args.skip(1), " "@).push('\n')
    }
}

/// Implements `echo`.
pub fn builtin_echo(args: &[String]) -> (r: Step)
    requires
        args@.len() > 0,
    ensures
        r.model() == outside::ended(
            seq![report::LineModel { error: false, text: echo_text(text::texts(args@)) }],
            0,
        ),
{
    let mut lines = no_lines();
    if args.len() > 1 && same(args[1].as_str(), "-n") {
        write_text(&mut lines, false, join_from(args, 2, " "));
    } else {
        say(&mut lines, join_from(args, 1, " "));
    }
    let r = end(lines, 0);
    assert(r.model().lines =~= seq![
        report::LineModel { error: false, text: echo_text(text::texts(args@)) },
    ]);
    r
}

// ---------------------------------------------------------------------------
// Aliases.
// ---------------------------------------------------------------------------

/// What `alias` does with the operands from the `i`th on: it sets `NAME=value`
/// and shows `NAME`, and the first unknown name ends it.
pub open spec fn alias_from(
    args: Seq<Seq<char>>,
    i: int,
    aliases: table::Entries<Seq<char>>,
    lines: Seq<report::LineModel>,
) -> (outside::StepModel, table::Entries<Seq<char>>)
    decreases args.len() - i,
{
    if i < 0 || i >= args.len() {
        (outside::ended(lines, 0), aliases)
    } else {
        match text::split_at_char(args[i], '=') {
            Some((key, value)) => alias_from(args, i + 1, table::with(aliases, key, value), lines),
            None => match table::lookup(aliases, args[i]) {
                Some(value) => alias_from(
                    args,
                    i + 1,
                    aliases,
                    lines.push(report::said("alias "@ + args[i] + "='"@ + value + "'"@)),
                ),
                None => (
                    outside::ended(
                        lines.push(
                            report::complained("alias: "@ + args[i] + ": not found"@),
                        ),
                        1,
                    ),
                    aliases,
                ),
            },
        }
    }
}

/// `alias`: without operands the aliases are listed.
pub open spec fn alias_step(args: Seq<Seq<char>>, st: state::StateModel) -> (
    outside::StepModel,
    state::StateModel,
) {
    if args.len() < 2 {
        (
            outside::ended(
                entry_lines(st.aliases, st.aliases.len() as int, "alias "@, "='"@, "'"@),
                0,
            ),
            st,
        )
    } else {
        let (step, aliases) = alias_from(args, 1, st.aliases, Seq::empty());
        (step, state::StateModel { aliases, ..st })
    }
}

/// Implements `alias`.
pub fn builtin_alias(args: &[String], state: &mut ShellState) -> (r: Step)
    ensures
        (r.model(), final(state).model()) == alias_step(text::texts(args@), old(state).model()),
{
    let ghost all = text::texts(args@);
    let ghost before = state.model();
    if args.len() < 2 {
        return end(list_entries(&state.aliases, "alias ", "='", "'"), 0);
    }
    let mut lines = no_lines();
    let mut i: usize = 1;
    while i < args.len()
        invariant
            1 <= i <= args@.len(),
            args@.len() >= 2,
            all == text::texts(args@),
            before == old(state).model(),
            state.model() == (state::StateModel { aliases: state.model().aliases, ..before }),
            alias_from(all, 1, before.aliases, Seq::empty()) == alias_from(
                all,
                i as int,
                state.model().aliases,
                report::line_models(lines@),
            ),
        decreases args@.len() - i,
    {
        assert(all[i as int] == args@[i as int]@);
        match split_once(args[i].as_str(), '=') {
            Some((key, value)) => {
                state.aliases.insert(key, value);
            },
            None => match state.aliases.get(args[i].as_str()) {
                Some(value) => {
                    let begin = concat3("alias ", args[i].as_str(), "='");
                    say(&mut lines, concat3(begin.as_str(), value.as_str(), "'"));
                },
                None => {
                    complain(&mut lines, concat3("alias: ", args[i].as_str(), ": not found"));
                    return end(lines, 1);
                },
            },
        }
        i += 1;
    }
    end(lines, 0)
}

/// The aliases without the names from the `i`th argument on.
pub open spec fn unalias_from(
    args: Seq<Seq<char>>,
    i: int,
    aliases: table::Entries<Seq<char>>,
) -> table::Entries<Seq<char>>
    decreases args.len() - i,
{
    if i < 0 || i >= args.len() {
        aliases
    } else {
        unalias_from(args, i + 1, table::without(aliases, args[i]))
    }
}

/// Implements `unalias`.
pub fn builtin_unalias(args: &[String], state: &mut ShellState) -> (r: Step)
    ensures
        r.model() == outside::ended(Seq::empty(), 0),
        final(state).model() == (state::StateModel {
            aliases: unalias_from(text::texts(args@), 1, old(state).model().aliases),
            ..old(state).model()
        }),
{
    let ghost all = text::texts(args@);
    let ghost before = state.model();
    let mut i: usize = 1;
    while i < args.len()
        invariant
            1 <= i,
            i <= args@.len() || i == 1,
            all == text::texts(args@),
            state.model() == (state::StateModel { aliases: state.model().aliases, ..before }),
            unalias_from(all, 1, before.aliases) == unalias_from(
                all,
                i as int,
                state.model().aliases,
            ),
        decreases args@.len() - i,
    {
        assert(all[i as int] == args@[i as int]@);
        state.aliases.remove(args[i].as_str());
        i += 1;
    }
    end(no_lines(), 0)
}

// ---------------------------------------------------------------------------
// Finding commands.
// ---------------------------------------------------------------------------

/// The path of `name` in a directory: `name` itself where it is absolute.
pub open spec fn path_in(dir: Seq<char>, name: Seq<char>) -> Seq<char> {
    if (name.len() > 0 && name[0] == '/') || dir.len() == 0 {
        name
    } else if dir.last() == '/' {
        dir + name
    } else {
        dir + "/"@ + name
    }
}

/// The path of a name in a directory.
pub fn join_path(dir: &str, name: &str) -> (r: String)
    ensures
        r@ == path_in(dir@, name@),
{
    let chars = to_chars(dir);
    if first_is(name, '/') || chars.len() == 0 {
        name.to_owned()
    } else if chars[chars.len() - 1] == '/' {
        concat(dir, name)
    } else {
        concat3(dir, "/", name)
    }
}

/// The parts of `s[i..]` between the characters `c`, behind those of `acc`;
/// the first one begins at `from`.
pub open spec fn parts_from(s: Seq<char>, from: int, i: int, c: char, acc: Seq<Seq<char>>) -> Seq<
    Seq<char>,
>
    decreases s.len() - i,
{
    if i < 0 || i >= s.len() {
        acc.push(s.subrange(from, s.len() as int))
    } else if s[i] == c {
        parts_from(s, i + 1, i + 1, c, acc.push(s.subrange(from, i)))
    } else {
        parts_from(s, from, i + 1, c, acc)
    }
}

/// The parts of a text between the characters `c`.
pub open spec fn parts(s: Seq<char>, c: char) -> Seq<Seq<char>> {
    parts_from(s, 0, 0, c, Seq::empty())
}

/// Splits a text at every `c`.
pub fn split_at(s: &str, c: char) -> (r: Vec<String>)
    ensures
        text::texts(r@) == parts(s@, c),
{
    let chars = to_chars(s);
    let n: usize = chars.len();
    let mut out: Vec<String> = Vec::new();
    let mut from: usize = 0;
    let mut i: usize = 0;
    assert(text::texts(out@) =~= Seq::empty());
    while i < n
        invariant
            n == chars@.len(),
            from <= i <= n,
            chars@ == s@,
            parts(s@, c) == parts_from(s@, from as int, i as int, c, text::texts(out@)),
        decreases n - i,
    {
        if chars[i] == c {
            let ghost before = text::texts(out@);
            let part = slice_text(&chars, from, i);
            let ghost t = part@;
            out.push(part);
            assert(text::texts(out@) =~= before.push(t));
            from = i + 1;
        }
        i += 1;
    }
    let ghost before = text::texts(out@);
    let part = slice_text(&chars, from, n);
    let ghost t = part@;
    out.push(part);
    assert(text::texts(out@) =~= before.push(t));
    out
}

/// The places where a command may be: its path in every directory of `PATH`.
pub open spec fn candidates(name: Seq<char>, env: table::Entries<Seq<char>>) -> Seq<Seq<char>> {
    match table::lookup(env, "PATH"@) {
        Some(path) => parts(path, ':').map_values(|dir: Seq<char>| path_in(dir, name)),
        None => Seq::empty(),
    }
}

fn list_candidates(name: &str, env: &Table<String>) -> (r: Vec<String>)
    ensures
        text::texts(r@) == candidates(name@, env.model()),
{
    let mut out: Vec<String> = Vec::new();
    assert(text::texts(out@) =~= Seq::empty());
    match env.get("PATH") {
        Some(path) => {
            let dirs = split_at(path.as_str(), ':');
            let ghost all = candidates(name@, env.model());
            let mut i: usize = 0;
            assert(all.take(0) =~= Seq::empty());
            while i < dirs.len()
                invariant
                    i <= dirs@.len(),
                    text::texts(dirs@) == parts(path@, ':'),
                    all == parts(path@, ':').map_values(|dir: Seq<char>| path_in(dir, name@)),
                    text::texts(out@) =~= all.take(i as int),
                decreases dirs@.len() - i,
            {
                let ghost before = text::texts(out@);
                let candidate = join_path(dirs[i].as_str(), name);
                let ghost t = candidate@;
                assert(all[i as int] == path_in(text::texts(dirs@)[i as int], name@));
                out.push(candidate);
                assert(text::texts(out@) =~= before.push(t));
                i += 1;
                assert(all.take(i as int) =~= all.take(i - 1).push(all[i - 1]));
            }
            assert(all.take(i as int) =~= all);
        },
        None => {},
    }
    out
}

/// What `which` and `type` begin with: builtins and functions are known, for
/// anything else the directories of `PATH` are searched.
pub open spec fn which_step(args: Seq<Seq<char>>, st: state::StateModel) -> outside::StepModel {
    if args.len() < 2 {
        outside::ended(Seq::empty(), 1)
    } else if builtin_name(args[1]) {
        outside::ended(seq![report::said(args[1] + ": shell builtin"@)], 0)
    } else if table::lookup(st.functions, args[1]) is Some {
        outside::ended(seq![report::said(args[1] + ": shell function"@)], 0)
    } else {
        outside::asking(
            Seq::empty(),
            outside::RequestModel::FirstFile {
                name: args[1],
                candidates: candidates(args[1], st.vars.env),
            },
        )
    }
}

/// Implements `which` and `type`.
pub fn builtin_which(args: &[String], state: &ShellState) -> (r: Step)
    ensures
        r.model() == which_step(text::texts(args@), state.model()),
{
    let mut lines = no_lines();
    if args.len() < 2 {
        return end(lines, 1);
    }
    let name = args[1].as_str();
    if is_builtin(name) {
        say(&mut lines, concat(name, ": shell builtin"));
        let r = end(lines, 0);
        assert(r.model().lines =~= seq![report::said(name@ + ": shell builtin"@)]);
        return r;
    }
    if state.functions.contains_key(name) {
        say(&mut lines, concat(name, ": shell function"));
        let r = end(lines, 0);
        assert(r.model().lines =~= seq![report::said(name@ + ": shell function"@)]);
        return r;
    }
    ask(
        Request::FirstFile {
            name: name.to_owned(),
            candidates: list_candidates(name, &state.vars.env),
        },
    )
}

/// What `which` comes to: the candidate that was found, or a note that there
/// is none.
pub open spec fn which_end(
    name: Seq<char>,
    candidates: Seq<Seq<char>>,
    found: Option<usize>,
) -> outside::StepModel {
    match found {
        Some(i) => if i < candidates.len() {
            outside::ended(seq![report::said(candidates[i as int])], 0)
        } else {
            outside::ended(seq![report::said(name + ": not found"@)], 1)
        },
        None => outside::ended(seq![report::said(name + ": not found"@)], 1),
    }
}

/// Finishes `which`.
pub fn finish_which(name: &str, candidates: &[String], found: Option<usize>) -> (r: Step)
    ensures
        r.model() == which_end(name@, text::texts(candidates@), found),
{
    let mut lines = no_lines();
    match found {
        Some(i) => {
            if i < candidates.len() {
                say(&mut lines, candidates[i].clone());
                let r = end(lines, 0);
                assert(r.model().lines =~= seq![report::said(candidates@[i as int]@)]);
                return r;
            }
        },
        None => {},
    }
    say(&mut lines, concat(name, ": not found"));
    let r = end(lines, 1);
    assert(r.model().lines =~= seq![report::said(name@ + ": not found"@)]);
    r
}

// ---------------------------------------------------------------------------
// All builtins.
// ---------------------------------------------------------------------------

/// The status that `exit` passes on.
pub open spec fn exit_code(args: Seq<Seq<char>>) -> i32 {
    if args.len() > 1 {
        match text::parse_int(args[1], i32::MIN as int, i32::MAX as int) {
            Some(n) => n as i32,
            None => 0,
        }
    } else {
        0
    }
}

/// What `test` and `[` begin with: a test on a path asks the file system.
pub open spec fn test_step(args: Seq<Seq<char>>) -> outside::StepModel {
    match testcmd::test_operands(args) {
        Some(a) => match testcmd::tested_path(a) {
            Some(path) => outside::asking(
                Seq::empty(),
                outside::RequestModel::LookAt { operands: a, path },
            ),
            None => {
                let v = testcmd::test_verdict(a, None);
                outside::ended(testcmd::verdict_lines(v), v.status)
            },
        },
        None => {
            let v = testcmd::command_verdict(args, None);
            outside::ended(testcmd::verdict_lines(v), v.status)
        },
    }
}

fn start_test(args: &[String]) -> (r: Step)
    requires
        args@.len() > 0,
    ensures
        r.model() == test_step(text::texts(args@)),
{
    match operands_of(args) {
        Some(a) => match path_in_test(&a) {
            Some(path) => {
                return ask(Request::LookAt { operands: a, path });
            },
            None => {},
        },
        None => {},
    }
    let mut lines = no_lines();
    let status = builtin_test(args, None, &mut lines);
    let ghost v = testcmd::command_verdict(text::texts(args@), None);
    assert(report::line_models(lines@) =~= testcmd::verdict_lines(v));
    end(lines, status)
}

/// What a builtin begins with, and the state afterwards.
pub open spec fn builtin_step(args: Seq<Seq<char>>, st: state::StateModel) -> (
    outside::StepModel,
    state::StateModel,
) {
    let name = args[0];
    if name == "cd"@ {
        (cd_step(args, st), st)
    } else if name == "pwd"@ {
        (outside::asking(Seq::empty(), outside::RequestModel::CurrentDir), st)
    } else if name == "exit"@ {
        (
            outside::StepModel {
                lines: Seq::empty(),
                next: outside::NextModel::Done(BuiltinResult::Exit(exit_code(args))),
            },
            st,
        )
    } else if name == "export"@ {
        export_step(args, st)
    } else if name == "unset"@ {
        (
            outside::ended(Seq::empty(), 0),
            state::StateModel { vars: unset_from(args, 1, st.vars), ..st },
        )
    } else if name == "echo"@ {
        (
            outside::ended(
                seq![report::LineModel { error: false, text: echo_text(args) }],
                0,
            ),
            st,
        )
    } else if name == "alias"@ {
        alias_step(args, st)
    } else if name == "unalias"@ {
        (
            outside::ended(Seq::empty(), 0),
            state::StateModel { aliases: unalias_from(args, 1, st.aliases), ..st },
        )
    } else if name == "which"@ || name == "type"@ {
        (which_step(args, st), st)
    } else if name == "test"@ || name == "["@ {
        (test_step(args), st)
    } else if name == "jobs"@ {
        (
            outside::asking(
                Seq::empty(),
                outside::RequestModel::Reap {
                    pids: jobs::pids_of(st.jobs),
                    style: jobs::style_from(args, 1, outside::JobsStyle::Plain),
                },
            ),
            st,
        )
    } else if name == "fg"@ {
        (jobs::fg_step(args, st.jobs), st)
    } else if name == "bg"@ {
        jobs::bg_step(args, st)
    } else if name == "wait"@ {
        (jobs::wait_step(args, st.jobs), st)
    } else if name == "disown"@ {
        (
            outside::ended(Seq::empty(), 0),
            state::StateModel {
                jobs: jobs::without_pids(st.jobs, jobs::disowned(args, st.jobs)),
                ..st
            },
        )
    } else if name == "kill"@ {
        (jobs::kill_step(args, st.jobs), st)
    } else {
        (
            outside::asking(
                Seq::empty(),
                outside::RequestModel::ReadLine {
                    raw: readcmd::raw_from(args, 1),
                    names: readcmd::read_names(args),
                },
            ),
            st,
        )
    }
}

/// Runs a builtin up to its end or its first request; `None` for a command
/// that is not a builtin.
pub fn run_builtin(args: &[String], state: &mut ShellState) -> (r: Option<Step>)
    ensures
        match r {
            Some(step) => {
                &&& args@.len() > 0
                &&& builtin_name(args@[0]@)
                &&& (step.model(), final(state).model()) == builtin_step(
                    text::texts(args@),
                    old(state).model(),
                )
            },
            None => {
                &&& args@.len() == 0 || !builtin_name(args@[0]@)
                &&& final(state).model() == old(state).model()
            },
        },
{
    if args.len() == 0 || !is_builtin(args[0].as_str()) {
        return None;
    }
    assert(text::texts(args@)[0] == args@[0]@);
    let name = args[0].as_str();
    let step = if same(name, "cd") {
        builtin_cd(args, state)
    } else if same(name, "pwd") {
        ask(Request::CurrentDir)
    } else if same(name, "exit") {
        let code: i32 = if args.len() > 1 {
            match parse_i32(args[1].as_str()) {
                Some(n) => n,
                None => 0,
            }
        } else {
            0
        };
        Step { lines: no_lines(), next: Next::Done(BuiltinResult::Exit(code)) }
    } else if same(name, "export") {
        builtin_export(args, state)
    } else if same(name, "unset") {
        builtin_unset(args, state)
    } else if same(name, "echo") {
        builtin_echo(args)
    } else if same(name, "alias") {
        builtin_alias(args, state)
    } else if same(name, "unalias") {
        builtin_unalias(args, state)
    } else if same(name, "which") || same(name, "type") {
        builtin_which(args, state)
    } else if same(name, "test") || same(name, "[") {
        start_test(args)
    } else if same(name, "jobs") {
        builtin_jobs(args, state)
    } else if same(name, "fg") {
        builtin_fg(args, state)
    } else if same(name, "bg") {
        builtin_bg(args, state)
    } else if same(name, "wait") {
        builtin_wait(args, state)
    } else if same(name, "disown") {
        builtin_disown(args, state)
    } else if same(name, "kill") {
        builtin_kill(args, state)
    } else {
        builtin_read(args)
    };
    Some(step)
}

/// How a builtin goes on once its request is answered, and the state
/// afterwards. A reply that does not fit the request has it asked again.
pub open spec fn builtin_end(
    request: outside::RequestModel,
    reply: outside::ReplyModel,
    st: state::StateModel,
) -> (outside::StepModel, state::StateModel) {
    match (request, reply) {
        (
            outside::RequestModel::ChangeDir { target },
            outside::ReplyModel::Moved { before, outcome },
        ) => cd_end(target, before, outcome, st),
        (outside::RequestModel::CurrentDir, outside::ReplyModel::Dir(outcome)) => (
            pwd_end(outcome),
            st,
        ),
        (
            outside::RequestModel::FirstFile { name, candidates },
            outside::ReplyModel::Found(found),
        ) => (which_end(name, candidates, found), st),
        (outside::RequestModel::LookAt { operands, path: _ }, outside::ReplyModel::Facts(facts)) => {
            let v = testcmd::test_verdict(operands, facts);
            (outside::ended(testcmd::verdict_lines(v), v.status), st)
        },
        (
            outside::RequestModel::Reap { pids: _, style },
            outside::ReplyModel::Statuses(statuses),
        ) => (
            outside::ended(jobs::listing(st.jobs, st.jobs.len() as int, statuses, style), 0),
            state::StateModel {
                jobs: jobs::unfinished(st.jobs, st.jobs.len() as int, statuses),
                ..st
            },
        ),
        (
            outside::RequestModel::Foreground { index, pid: _ },
            outside::ReplyModel::Foreground(outcome),
        ) => {
            let (status, after) = jobs::fg_end(st, index, outcome);
            (outside::ended(Seq::empty(), status), after)
        },
        (outside::RequestModel::Continue { pid: _ }, outside::ReplyModel::Resumed) => (
            outside::ended(Seq::empty(), 0),
            st,
        ),
        (outside::RequestModel::Wait { pids }, outside::ReplyModel::Statuses(statuses)) => (
            outside::ended(
                Seq::empty(),
                jobs::last_collected(statuses, statuses.len() as int, st.last_status),
            ),
            state::StateModel { jobs: jobs::without_pids(st.jobs, pids), ..st },
        ),
        (
            outside::RequestModel::Kill { signal: _, targets },
            outside::ReplyModel::Delivered(delivered),
        ) => (jobs::kill_end(targets, delivered), st),
        (
            outside::RequestModel::ReadLine { raw, names },
            outside::ReplyModel::Read(outcome),
        ) => readcmd::read_end(raw, names, outcome, st),
        _ => (outside::asking(Seq::empty(), request), st),
    }
}

/// Goes on with a builtin whose request was answered.
pub fn finish_builtin(request: Request, reply: Reply, state: &mut ShellState) -> (r: Step)
    ensures
        (r.model(), final(state).model()) == builtin_end(
            request.model(),
            reply.model(),
            old(state).model(),
        ),
{
    match (request, reply) {
        (Request::ChangeDir { target }, Reply::Moved { before, outcome }) => {
            finish_cd(target.as_str(), before, outcome, state)
        },
        (Request::CurrentDir, Reply::Dir(outcome)) => finish_pwd(outcome),
        (Request::FirstFile { name, candidates }, Reply::Found(found)) => {
            finish_which(name.as_str(), &candidates, found)
        },
        (Request::LookAt { operands, path: _ }, Reply::Facts(facts)) => {
            let mut lines = no_lines();
            let status = eval_test(&operands, facts, &mut lines);
            let ghost v = testcmd::test_verdict(text::texts(operands@), facts);
            assert(report::line_models(lines@) =~= testcmd::verdict_lines(v));
            end(lines, status)
        },
        (Request::Reap { pids: _, style }, Reply::Statuses(statuses)) => {
            finish_jobs(state, style, &statuses)
        },
        (Request::Foreground { index, pid: _ }, Reply::Foreground(outcome)) => {
            finish_fg(state, index, outcome)
        },
        (Request::Continue { pid: _ }, Reply::Resumed) => end(no_lines(), 0),
        (Request::Wait { pids }, Reply::Statuses(statuses)) => {
            finish_wait(state, &pids, &statuses)
        },
        (Request::Kill { signal: _, targets }, Reply::Delivered(delivered)) => {
            finish_kill(&targets, &delivered)
        },
        (Request::ReadLine { raw, names }, Reply::Read(outcome)) => {
            finish_read(raw, &names, outcome, state)
        },
        (request, _) => ask(request),
    }
}

} // verus!
