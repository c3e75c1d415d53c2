//! Laws of the builtins.

use crate::arithlaws;
use crate::builtins;
use crate::executor;
use crate::machine;
use crate::outside;
use crate::outside::BuiltinResult;
use crate::report;
use crate::state;
use crate::table;
use crate::testcmd;
use crate::text;
use crate::textlaws;
use crate::vars;
use vstd::prelude::*;

verus! {

/// The names of the builtins differ from one another.
pub proof fn lemma_builtin_names()
    ensures
        "cd"@.len() == 2,
        "cd"@[0] == 'c',
        "cd"@[1] == 'd',
        "pwd"@.len() == 3,
        "pwd"@[0] == 'p',
        "pwd"@[1] == 'w',
        "pwd"@[2] == 'd',
        "exit"@.len() == 4,
        "exit"@[0] == 'e',
        "exit"@[1] == 'x',
        "exit"@[2] == 'i',
        "export"@.len() == 6,
        "export"@[0] == 'e',
        "export"@[1] == 'x',
        "export"@[2] == 'p',
        "unset"@.len() == 5,
        "unset"@[0] == 'u',
        "unset"@[1] == 'n',
        "unset"@[2] == 's',
        "echo"@.len() == 4,
        "echo"@[0] == 'e',
        "echo"@[1] == 'c',
        "echo"@[2] == 'h',
        "alias"@.len() == 5,
        "alias"@[0] == 'a',
        "alias"@[1] == 'l',
        "alias"@[2] == 'i',
        "unalias"@.len() == 7,
        "unalias"@[0] == 'u',
        "unalias"@[1] == 'n',
        "unalias"@[2] == 'a',
        "which"@.len() == 5,
        "which"@[0] == 'w',
        "which"@[1] == 'h',
        "which"@[2] == 'i',
        "type"@.len() == 4,
        "type"@[0] == 't',
        "type"@[1] == 'y',
        "type"@[2] == 'p',
        "test"@.len() == 4,
        "test"@[0] == 't',
        "test"@[1] == 'e',
        "test"@[2] == 's',
        "["@.len() == 1,
        "["@[0] == '[',
        "jobs"@.len() == 4,
        "jobs"@[0] == 'j',
        "jobs"@[1] == 'o',
        "jobs"@[2] == 'b',
        "fg"@.len() == 2,
        "fg"@[0] == 'f',
        "fg"@[1] == 'g',
        "bg"@.len() == 2,
        "bg"@[0] == 'b',
        "bg"@[1] == 'g',
        "wait"@.len() == 4,
        "wait"@[0] == 'w',
        "wait"@[1] == 'a',
        "wait"@[2] == 'i',
        "disown"@.len() == 6,
        "disown"@[0] == 'd',
        "disown"@[1] == 'i',
        "disown"@[2] == 's',
        "kill"@.len() == 4,
        "kill"@[0] == 'k',
        "kill"@[1] == 'i',
        "kill"@[2] == 'l',
        "read"@.len() == 4,
        "read"@[0] == 'r',
        "read"@[1] == 'e',
        "read"@[2] == 'a',
{
    reveal_strlit("cd");
    reveal_strlit("pwd");
    reveal_strlit("exit");
    reveal_strlit("export");
    reveal_strlit("unset");
    reveal_strlit("echo");
    reveal_strlit("alias");
    reveal_strlit("unalias");
    reveal_strlit("which");
    reveal_strlit("type");
    reveal_strlit("test");
    reveal_strlit("[");
    reveal_strlit("jobs");
    reveal_strlit("fg");
    reveal_strlit("bg");
    reveal_strlit("wait");
    reveal_strlit("disown");
    reveal_strlit("kill");
    reveal_strlit("read");
}

/// A builtin that ended with a status and said nothing.
pub open spec fn quiet(step: outside::StepModel, status: i32) -> bool {
    step.lines.len() == 0 && step.next == outside::NextModel::Done(BuiltinResult::Status(status))
}

/// A builtin that ended with a status and wrote one line.
pub open spec fn wrote(
    step: outside::StepModel,
    error: bool,
    line: Seq<char>,
    status: i32,
) -> bool {
    &&& step.lines.len() == 1
    &&& step.lines[0].error == error
    &&& step.lines[0].text == line + seq!['\n']
    &&& step.next == outside::NextModel::Done(BuiltinResult::Status(status))
}

// ---------------------------------------------------------------------------
// echo, exit, pwd, cd.
// ---------------------------------------------------------------------------

/// What `echo` writes for these operands.
pub open spec fn echoed(operands: Seq<Seq<char>>, st: state::StateModel) -> Seq<char> {
    builtins::builtin_step(seq!["echo"@] + operands, st).0.lines[0].text
}

/// `echo` writes its operands, a space between neighbours and a newline at the
/// end, to standard output; `-n` in front leaves the newline out, and is
/// nothing but a flag. It succeeds and changes nothing.
pub proof fn law_echo(operands: Seq<Seq<char>>, w: Seq<char>, st: state::StateModel)
    requires
        operands.len() == 0 || operands[0] != "-n"@,
        w != "-n"@,
    ensures
        ({
            let r = builtins::builtin_step(seq!["echo"@] + operands, st);
            &&& r.0.lines.len() == 1 && !r.0.lines[0].error
            &&& r.0.next == outside::NextModel::Done(BuiltinResult::Status(0))
            &&& r.1 == st
        }),
        echoed(Seq::empty(), st) == seq!['\n'],
        echoed(seq![w], st) == w + seq!['\n'],
        operands.len() > 0 ==> echoed(operands.push(w), st) == echoed(operands, st).drop_last()
            + seq![' '] + w + seq!['\n'],
        echoed(seq!["-n"@] + operands, st) + seq!['\n'] == echoed(operands, st),
{
    lemma_builtin_names();
    reveal_strlit(" ");
    assert(" "@ =~= seq![' ']);
    let echo = seq!["echo"@];
    assert((echo + operands).skip(1) =~= operands);
    assert((echo + Seq::<Seq<char>>::empty()).skip(1) =~= Seq::empty());
    assert((echo + seq![w]).skip(1) =~= seq![w]);
    assert((echo + operands.push(w)).skip(1) =~= operands.push(w));
    assert((echo + (seq!["-n"@] + operands)).skip(2) =~= operands);
    textlaws::law_joined(operands, w, " "@);
    assert(Seq::<char>::empty().push('\n') =~= seq!['\n']);
    assert(w.push('\n') =~= w + seq!['\n']);
    assert((echo + operands.push(w))[1] == operands.push(w)[0]);
    if operands.len() > 0 {
        assert((echo + operands)[1] == operands[0]);
        assert(operands.push(w)[0] == operands[0]);
        let a = text::joined(operands, " "@);
        assert(a.push('\n').drop_last() =~= a);
        assert((a + " "@ + w).push('\n') =~= a + seq![' '] + w + seq!['\n']);
    }
    assert((echo + (seq!["-n"@] + operands))[1] == "-n"@);
    let b = text::joined(operands, " "@);
    assert(b + seq!['\n'] =~= b.push('\n'));
}

/// `exit` leaves the shell with the number that it is given, and with 0 where
/// it is given none.
pub proof fn law_exit_status(n: i32, s: Seq<char>, st: state::StateModel)
    ensures
        builtins::builtin_step(seq!["exit"@], st).0.next == outside::NextModel::Done(
            BuiltinResult::Exit(0),
        ),
        builtins::builtin_step(seq!["exit"@, text::decimal_int(n as int)], st).0.next
            == outside::NextModel::Done(BuiltinResult::Exit(n)),
        text::parse_int(s, i32::MIN as int, i32::MAX as int) is None ==> builtins::builtin_step(
            seq!["exit"@, s],
            st,
        ).0.next == outside::NextModel::Done(BuiltinResult::Exit(0)),
{
    lemma_builtin_names();
    arithlaws::law_decimal_reads_back(n as int, i32::MIN as int, i32::MAX as int);
}

/// `pwd` asks for the working directory and writes it; where there is none it
/// fails.
pub proof fn law_pwd(dir: Seq<char>, e: Seq<char>, st: state::StateModel)
    ensures
        builtins::builtin_step(seq!["pwd"@], st).0.next == outside::NextModel::Ask(
            outside::RequestModel::CurrentDir,
        ),
        wrote(
            builtins::builtin_end(
                outside::RequestModel::CurrentDir,
                outside::ReplyModel::Dir(Ok(dir)),
                st,
            ).0,
            false,
            dir,
            0,
        ),
        wrote(
            builtins::builtin_end(
                outside::RequestModel::CurrentDir,
                outside::ReplyModel::Dir(Err(e)),
                st,
            ).0,
            true,
            "pwd: "@ + e,
            1,
        ),
{
    lemma_builtin_names();
    assert(dir.push('\n') =~= dir + seq!['\n']);
    assert(("pwd: "@ + e).push('\n') =~= "pwd: "@ + e + seq!['\n']);
}

/// `cd` asks for the directory that it names: its operand; for `-` the
/// directory before, a failure where there is none; without an operand the home
/// directory of the environment, else the root.
pub proof fn law_cd_target(dir: Seq<char>, st: state::StateModel)
    requires
        dir != "-"@,
    ensures
        ({
            let went = |args: Seq<Seq<char>>, target: Seq<char>|
                builtins::builtin_step(args, st).0.next == outside::NextModel::Ask(
                    outside::RequestModel::ChangeDir { target },
                );
            &&& went(seq!["cd"@, dir], dir)
            &&& st.prev_dir matches Some(before) ==> went(seq!["cd"@, "-"@], before)
            &&& st.prev_dir is None ==> wrote(
                builtins::builtin_step(seq!["cd"@, "-"@], st).0,
                true,
                "cd: OLDPWD is not set"@,
                1,
            )
            &&& table::lookup(st.vars.env, "HOME"@) matches Some(home) ==> went(seq!["cd"@], home)
            &&& table::lookup(st.vars.env, "HOME"@) is None ==> went(seq!["cd"@], "/"@)
        }),
{
    lemma_builtin_names();
    assert("cd: OLDPWD is not set"@.push('\n') =~= "cd: OLDPWD is not set"@ + seq!['\n']);
}

/// A change of directory that works sets `PWD` and `OLDPWD`, in the shell and
/// for children, and remembers where it came from; one that fails says so,
/// with the directory and the reason, and changes nothing.
pub proof fn law_cd_follows(
    target: Seq<char>,
    before: Seq<char>,
    after: Seq<char>,
    e: Seq<char>,
    other: Seq<char>,
    st: state::StateModel,
)
    requires
        vars::env_value(before),
        vars::env_value(after),
        other != "PWD"@,
        other != "OLDPWD"@,
    ensures
        ({
            let (step, done) = builtins::builtin_end(
                outside::RequestModel::ChangeDir { target },
                outside::ReplyModel::Moved { before: Some(before), outcome: Ok(Some(after)) },
                st,
            );
            &&& quiet(step, 0)
            &&& done.vars.value("PWD"@) == after
            &&& done.vars.value("OLDPWD"@) == before
            &&& table::lookup(done.vars.env, "PWD"@) == Some(after)
            &&& table::lookup(done.vars.env, "OLDPWD"@) == Some(before)
            &&& table::lookup(done.vars.shell, other) == table::lookup(st.vars.shell, other)
            &&& table::lookup(done.vars.env, other) == table::lookup(st.vars.env, other)
            &&& done.prev_dir == Some(before)
        }),
        ({
            let (step, done) = builtins::builtin_end(
                outside::RequestModel::ChangeDir { target },
                outside::ReplyModel::Moved { before: Some(before), outcome: Err(e) },
                st,
            );
            &&& wrote(step, true, "cd: "@ + target + ": "@ + e, 1)
            &&& done == st
        }),
{
    reveal_strlit("PWD");
    reveal_strlit("OLDPWD");
    assert("PWD"@.len() == 3 && "OLDPWD"@.len() == 6);
    assert("PWD"@ =~= seq!['P', 'W', 'D']);
    assert("OLDPWD"@ =~= seq!['O', 'L', 'D', 'P', 'W', 'D']);
    let v = st.vars.export("OLDPWD"@, before);
    vars::law_export_and_assignment(st.vars, "OLDPWD"@, before);
    vars::law_export_and_assignment(v, "PWD"@, after);
    assert(vars::env_name("PWD"@) && vars::env_name("OLDPWD"@));
    table::law_read_after_write(st.vars.shell, "OLDPWD"@, before, other);
    table::law_read_after_write(st.vars.env, "OLDPWD"@, before, other);
    table::law_read_after_write(v.shell, "PWD"@, after, other);
    table::law_read_after_write(v.env, "PWD"@, after, other);
    table::law_read_after_write(v.shell, "PWD"@, after, "OLDPWD"@);
    table::law_read_after_write(v.env, "PWD"@, after, "OLDPWD"@);
    let m = "cd: "@ + target + ": "@ + e;
    assert(m.push('\n') =~= m + seq!['\n']);
}

// ---------------------------------------------------------------------------
// export, unset.
// ---------------------------------------------------------------------------

/// `export NAME=value` sets the variable and hands it to children; an operand
/// without `=` is a failure that changes nothing.
pub proof fn law_export(
    name: Seq<char>,
    value: Seq<char>,
    other: Seq<char>,
    st: state::StateModel,
)
    requires
        textlaws::lacks(name, '='),
        other != name,
    ensures
        ({
            let (step, done) = builtins::builtin_step(
                seq!["export"@, name + seq!['='] + value],
                st,
            );
            &&& quiet(step, 0)
            &&& done.vars.value(name) == value
            &&& vars::env_name(name) && vars::env_value(value) ==> table::lookup(
                done.vars.env,
                name,
            ) == Some(value)
            &&& done.vars.value(other) == st.vars.value(other)
            &&& table::lookup(done.vars.env, other) == table::lookup(st.vars.env, other)
        }),
        ({
            let (step, done) = builtins::builtin_step(seq!["export"@, name], st);
            &&& wrote(step, true, "export: "@ + name + ": invalid format, use VAR=value"@, 1)
            &&& done == st
        }),
{
    lemma_builtin_names();
    textlaws::law_split(name, '=', value);
    let args = seq!["export"@, name + seq!['='] + value];
    reveal_with_fuel(builtins::export_from, 2);
    assert(builtins::export_from(args, 1, st.vars) == (
        Ok::<(), Seq<char>>(()),
        st.vars.export(name, value),
    ));
    vars::law_export_and_assignment(st.vars, name, value);
    table::law_read_after_write(st.vars.shell, name, value, other);
    table::law_read_after_write(st.vars.env, name, value, other);
    table::law_read_after_write(st.vars.env, name, value, name);
    let m = "export: "@ + name + ": invalid format, use VAR=value"@;
    assert(m.push('\n') =~= m + seq!['\n']);
}

proof fn lemma_export_push(args: Seq<Seq<char>>, x: Seq<char>, i: int, v: vars::VarsModel)
    requires
        1 <= i <= args.len(),
    ensures
        ({
            let first = builtins::export_from(args, i, v);
            builtins::export_from(args.push(x), i, v) == match first.0 {
                Ok(_) => builtins::export_from(seq!["export"@, x], 1, first.1),
                Err(_) => first,
            }
        }),
    decreases args.len() - i,
{
    let more = args.push(x);
    reveal_with_fuel(builtins::export_from, 2);
    if i == args.len() {
        assert(more[i] == x);
        assert(builtins::export_from(more, i + 1, v) == (Ok::<(), Seq<char>>(()), v));
    } else {
        assert(more[i] == args[i]);
        match text::split_at_char(args[i], '=') {
            Some((key, value)) => {
                lemma_export_push(args, x, i + 1, v.export(key, value));
            },
            None => {},
        }
    }
}

/// Operands of `export` take effect one after the other, until one fails.
pub proof fn law_exports_in_order(args: Seq<Seq<char>>, x: Seq<char>, st: state::StateModel)
    requires
        args.len() >= 2,
        args[0] == "export"@,
    ensures
        ({
            let (step, done) = builtins::builtin_step(args, st);
            builtins::builtin_step(args.push(x), st) == if step.next == outside::NextModel::Done(
                BuiltinResult::Status(0),
            ) {
                builtins::builtin_step(seq!["export"@, x], done)
            } else {
                (step, done)
            }
        }),
{
    lemma_builtin_names();
    lemma_export_push(args, x, 1, st.vars);
}

proof fn lemma_entry_lines(
    t: table::Entries<Seq<char>>,
    n: int,
    a: Seq<char>,
    b: Seq<char>,
    c: Seq<char>,
)
    requires
        0 <= n <= t.len(),
    ensures
        builtins::entry_lines(t, n, a, b, c).len() == n,
        forall|k: int|
            0 <= k < n ==> !(#[trigger] builtins::entry_lines(t, n, a, b, c)[k]).error
                && builtins::entry_lines(t, n, a, b, c)[k].text == a + t[k].0 + b + t[k].1 + c
                + seq!['\n'],
    decreases n,
{
    if n > 0 {
        lemma_entry_lines(t, n - 1, a, b, c);
        let all = builtins::entry_lines(t, n, a, b, c);
        let m = a + t[n - 1].0 + b + t[n - 1].1 + c;
        assert(m.push('\n') =~= m + seq!['\n']);
        assert forall|k: int| 0 <= k < n implies !(#[trigger] all[k]).error && all[k].text == a
            + t[k].0 + b + t[k].1 + c + seq!['\n'] by {
            if k < n - 1 {
                assert(all[k] == builtins::entry_lines(t, n - 1, a, b, c)[k]);
            }
        }
    }
}

/// Without operands `export` and `alias` list what there is, one line for each
/// name, in order.
pub proof fn law_listings(k: int, st: state::StateModel)
    ensures
        ({
            let (step, done) = builtins::builtin_step(seq!["export"@], st);
            &&& done == st
            &&& step.next == outside::NextModel::Done(BuiltinResult::Status(0))
            &&& step.lines.len() == st.vars.shell.len()
            &&& 0 <= k < st.vars.shell.len() ==> !step.lines[k].error && step.lines[k].text
                == "export "@ + st.vars.shell[k].0 + "=\""@ + st.vars.shell[k].1 + "\""@
                + seq!['\n']
        }),
        ({
            let (step, done) = builtins::builtin_step(seq!["alias"@], st);
            &&& done == st
            &&& step.next == outside::NextModel::Done(BuiltinResult::Status(0))
            &&& step.lines.len() == st.aliases.len()
            &&& 0 <= k < st.aliases.len() ==> !step.lines[k].error && step.lines[k].text == "alias "@
                + st.aliases[k].0 + "='"@ + st.aliases[k].1 + "'"@ + seq!['\n']
        }),
{
    lemma_builtin_names();
    let shell = st.vars.shell;
    lemma_entry_lines(shell, shell.len() as int, "export "@, "=\""@, "\""@);
    lemma_entry_lines(st.aliases, st.aliases.len() as int, "alias "@, "='"@, "'"@);
}

proof fn lemma_unset_push(args: Seq<Seq<char>>, x: Seq<char>, i: int, v: vars::VarsModel)
    requires
        0 <= i <= args.len(),
    ensures
        builtins::unset_from(args.push(x), i, v) == builtins::unset_from(args, i, v).unset(x),
    decreases args.len() - i,
{
    reveal_with_fuel(builtins::unset_from, 2);
    if i < args.len() {
        assert(args.push(x)[i] == args[i]);
        lemma_unset_push(args, x, i + 1, v.unset(args[i]));
    } else {
        assert(builtins::unset_from(args.push(x), i + 1, v.unset(x)) == v.unset(x));
    }
}

/// `unset` takes each of its names out of the shell and out of the environment,
/// and leaves the others; it is quiet about names that are not set.
pub proof fn law_unset_names(
    args: Seq<Seq<char>>,
    x: Seq<char>,
    other: Seq<char>,
    st: state::StateModel,
)
    requires
        args.len() >= 1,
        args[0] == "unset"@,
        other != x,
    ensures
        ({
            let (step, done) = builtins::builtin_step(args.push(x), st);
            let before = builtins::builtin_step(args, st).1;
            &&& quiet(step, 0)
            &&& table::lookup(done.vars.shell, x) is None
            &&& table::lookup(done.vars.env, x) is None
            &&& table::lookup(done.vars.shell, other) == table::lookup(before.vars.shell, other)
            &&& table::lookup(done.vars.env, other) == table::lookup(before.vars.env, other)
            &&& args.len() == 1 ==> before == st
        }),
{
    lemma_builtin_names();
    lemma_unset_push(args, x, 1, st.vars);
    let v = builtins::builtin_step(args, st).1.vars;
    table::law_read_after_remove(v.shell, x, other);
    table::law_read_after_remove(v.env, x, other);
}

// ---------------------------------------------------------------------------
// alias, unalias.
// ---------------------------------------------------------------------------

/// `alias NAME=value` sets an alias; `alias NAME` shows it, and fails where
/// there is none.
pub proof fn law_alias(
    name: Seq<char>,
    value: Seq<char>,
    other: Seq<char>,
    st: state::StateModel,
)
    requires
        textlaws::lacks(name, '='),
        other != name,
    ensures
        ({
            let (step, done) = builtins::builtin_step(seq!["alias"@, name + seq!['='] + value], st);
            &&& quiet(step, 0)
            &&& table::lookup(done.aliases, name) == Some(value)
            &&& table::lookup(done.aliases, other) == table::lookup(st.aliases, other)
            &&& wrote(
                builtins::builtin_step(seq!["alias"@, name], done).0,
                false,
                "alias "@ + name + "='"@ + value + "'"@,
                0,
            )
        }),
        table::lookup(st.aliases, name) is None ==> wrote(
            builtins::builtin_step(seq!["alias"@, name], st).0,
            true,
            "alias: "@ + name + ": not found"@,
            1,
        ),
        builtins::builtin_step(seq!["alias"@, name], st).1 == st,
{
    lemma_builtin_names();
    textlaws::law_split(name, '=', value);
    reveal_with_fuel(builtins::alias_from, 2);
    let set = seq!["alias"@, name + seq!['='] + value];
    let with = table::with(st.aliases, name, value);
    assert(builtins::alias_from(set, 1, st.aliases, Seq::empty()).1 == with);
    table::law_read_after_write(st.aliases, name, value, other);
    let m = "alias "@ + name + "='"@ + value + "'"@;
    assert(m.push('\n') =~= m + seq!['\n']);
    let n = "alias: "@ + name + ": not found"@;
    assert(n.push('\n') =~= n + seq!['\n']);
    let show = seq!["alias"@, name];
    let done = builtins::builtin_step(set, st).1;
    assert(builtins::alias_from(show, 1, done.aliases, Seq::empty()).0.lines
        =~= seq![report::said(m)]);
    if table::lookup(st.aliases, name) is None {
        assert(builtins::alias_from(show, 1, st.aliases, Seq::empty()).0.lines
            =~= seq![report::complained(n)]);
    }
}

proof fn lemma_unalias_push(
    args: Seq<Seq<char>>,
    x: Seq<char>,
    i: int,
    t: table::Entries<Seq<char>>,
)
    requires
        0 <= i <= args.len(),
    ensures
        builtins::unalias_from(args.push(x), i, t) == table::without(
            builtins::unalias_from(args, i, t),
            x,
        ),
    decreases args.len() - i,
{
    reveal_with_fuel(builtins::unalias_from, 2);
    if i < args.len() {
        assert(args.push(x)[i] == args[i]);
        lemma_unalias_push(args, x, i + 1, table::without(t, args[i]));
    } else {
        assert(builtins::unalias_from(args.push(x), i + 1, table::without(t, x))
            == table::without(t, x));
    }
}

/// `unalias` takes each of its names out and leaves the others.
pub proof fn law_unalias(
    args: Seq<Seq<char>>,
    x: Seq<char>,
    other: Seq<char>,
    st: state::StateModel,
)
    requires
        args.len() >= 1,
        args[0] == "unalias"@,
        other != x,
    ensures
        ({
            let (step, done) = builtins::builtin_step(args.push(x), st);
            let before = builtins::builtin_step(args, st).1;
            &&& quiet(step, 0)
            &&& table::lookup(done.aliases, x) is None
            &&& table::lookup(done.aliases, other) == table::lookup(before.aliases, other)
            &&& args.len() == 1 ==> before == st
        }),
{
    lemma_builtin_names();
    lemma_unalias_push(args, x, 1, st.aliases);
    table::law_read_after_remove(builtins::builtin_step(args, st).1.aliases, x, other);
}

// ---------------------------------------------------------------------------
// which, type, test.
// ---------------------------------------------------------------------------

/// `which` and `type` know a builtin before a function, and a function before
/// a program; only for the last the directories of `PATH` are searched, and
/// what is found there, or that nothing is, is written.
pub proof fn law_which(
    command: Seq<char>,
    name: Seq<char>,
    candidates: Seq<Seq<char>>,
    i: usize,
    st: state::StateModel,
)
    requires
        command == "which"@ || command == "type"@,
        i < candidates.len(),
    ensures
        ({
            let (step, done) = builtins::builtin_step(seq![command, name], st);
            &&& done == st
            &&& builtins::builtin_name(name) ==> wrote(step, false, name + ": shell builtin"@, 0)
            &&& !builtins::builtin_name(name) && table::lookup(st.functions, name) is Some ==> wrote(
                step,
                false,
                name + ": shell function"@,
                0,
            )
            &&& !builtins::builtin_name(name) && table::lookup(st.functions, name) is None
                ==> step.lines.len() == 0 && step.next == outside::NextModel::Ask(
                outside::RequestModel::FirstFile {
                    name,
                    candidates: builtins::candidates(name, st.vars.env),
                },
            )
        }),
        quiet(builtins::builtin_step(seq![command], st).0, 1),
        wrote(
            builtins::builtin_end(
                outside::RequestModel::FirstFile { name, candidates },
                outside::ReplyModel::Found(Some(i)),
                st,
            ).0,
            false,
            candidates[i as int],
            0,
        ),
        wrote(
            builtins::builtin_end(
                outside::RequestModel::FirstFile { name, candidates },
                outside::ReplyModel::Found(None),
                st,
            ).0,
            false,
            name + ": not found"@,
            1,
        ),
{
    lemma_builtin_names();
    let a = name + ": shell builtin"@;
    let b = name + ": shell function"@;
    let c = candidates[i as int];
    let d = name + ": not found"@;
    assert(a.push('\n') =~= a + seq!['\n']);
    assert(b.push('\n') =~= b + seq!['\n']);
    assert(c.push('\n') =~= c + seq!['\n']);
    assert(d.push('\n') =~= d + seq!['\n']);
}

/// A command is looked for in the directories of `PATH`, in the order in which
/// they stand there: the first one, up to the first `:`, and then those of the
/// rest. In a directory it has the path that is made of the two. Without
/// `PATH` it is looked for nowhere.
pub proof fn law_search_path(
    name: Seq<char>,
    dir: Seq<char>,
    rest: Seq<char>,
    env: table::Entries<Seq<char>>,
    shorter: table::Entries<Seq<char>>,
)
    requires
        name.len() > 0,
        name[0] != '/',
        dir.len() > 0,
        dir.last() != '/',
        textlaws::lacks(dir, ':'),
    ensures
        table::lookup(env, "PATH"@) is None ==> builtins::candidates(name, env).len() == 0,
        table::lookup(env, "PATH"@) == Some(dir) ==> builtins::candidates(name, env)
            == seq![dir + seq!['/'] + name],
        table::lookup(env, "PATH"@) == Some(dir + seq![':'] + rest) && table::lookup(
            shorter,
            "PATH"@,
        ) == Some(rest) ==> builtins::candidates(name, env) == seq![dir + seq!['/'] + name]
            + builtins::candidates(name, shorter),
{
    reveal_strlit("/");
    assert("/"@ =~= seq!['/']);
    textlaws::law_parts(dir, ':', rest);
    let here = |d: Seq<char>| builtins::path_in(d, name);
    assert(seq![dir].map_values(here) =~= seq![dir + seq!['/'] + name]);
    let tail = builtins::parts(rest, ':');
    assert((seq![dir] + tail).map_values(here) =~= seq![dir + seq!['/'] + name]
        + tail.map_values(here));
}

/// `test` and `[` ask the file system about the path of a file operator, come
/// to their verdict with what it tells, and ask about nothing else.
pub proof fn law_tests_look(
    operands: Seq<Seq<char>>,
    facts: Option<testcmd::FileFacts>,
    st: state::StateModel,
)
    ensures
        ({
            let a = builtins::builtin_step(seq!["test"@] + operands, st);
            let b = builtins::builtin_step(seq!["["@] + operands + seq!["]"@], st);
            let path = testcmd::tested_path(operands);
            let v = testcmd::test_verdict(operands, facts);
            &&& a == b
            &&& a.1 == st
            &&& path matches Some(p) ==> a.0.next == outside::NextModel::Ask(
                outside::RequestModel::LookAt { operands, path: p },
            ) && a.0.lines.len() == 0
            &&& path is None ==> a.0.next == outside::NextModel::Done(
                BuiltinResult::Status(testcmd::test_verdict(operands, None).status),
            )
            &&& ({
                let end = builtins::builtin_end(
                    outside::RequestModel::LookAt { operands, path: path.unwrap() },
                    outside::ReplyModel::Facts(facts),
                    st,
                );
                &&& end.1 == st
                &&& end.0.next == outside::NextModel::Done(BuiltinResult::Status(v.status))
                &&& v.message is None ==> end.0.lines.len() == 0
                &&& v.message matches Some(m) ==> wrote(end.0, true, m, v.status)
            })
        }),
{
    lemma_builtin_names();
    testcmd::law_brackets(operands, None);
    reveal_strlit("]");
    let plain = seq!["test"@] + operands;
    let closed = seq!["["@] + operands + seq!["]"@];
    assert(plain.skip(1) =~= operands);
    assert(closed.last() == "]"@);
    assert(closed.subrange(1, closed.len() - 1) =~= operands);
    assert(testcmd::test_operands(plain) == Some(operands));
    assert(testcmd::test_operands(closed) == Some(operands));
    let v = testcmd::test_verdict(operands, facts);
    if v.message is Some {
        let m = v.message.unwrap();
        assert(m.push('\n') =~= m + seq!['\n']);
    }
}

/// What a builtin writes and comes to, the machine passes on: its lines behind
/// those before, its status to the frame on top, a request to the world
/// outside, and the state that it leaves.
pub proof fn law_builtins_report(c: machine::Config, words: Seq<Seq<char>>)
    requires
        c.control == machine::ControlModel::Invoke(words),
        words.len() > 0,
        builtins::builtin_name(words[0]),
    ensures
        ({
            let (step, st) = builtins::builtin_step(words, c.st);
            let d = executor::step(c);
            &&& d.st == st
            &&& d.frames == c.frames
            &&& d.lines == c.lines + step.lines
            &&& step.next matches outside::NextModel::Done(BuiltinResult::Status(s)) ==> d.control
                == machine::ControlModel::Status(s)
            &&& step.next matches outside::NextModel::Done(BuiltinResult::Exit(s)) ==> d.control
                == machine::ControlModel::Exit(s)
            &&& step.next matches outside::NextModel::Ask(q) ==> d.control
                == machine::ControlModel::Ask(machine::ActionModel::Builtin(q))
        }),
{
}

/// So it does with what a builtin comes to after a reply.
pub proof fn law_replies_report(
    c: machine::Config,
    q: outside::RequestModel,
    r: outside::ReplyModel,
)
    requires
        c.control == machine::ControlModel::Ask(machine::ActionModel::Builtin(q)),
    ensures
        ({
            let (step, st) = builtins::builtin_end(q, r, c.st);
            let d = executor::answered(c, machine::AnswerModel::Builtin(r));
            &&& d.st == st
            &&& d.frames == c.frames
            &&& d.lines == c.lines + step.lines
            &&& step.next matches outside::NextModel::Done(BuiltinResult::Status(s)) ==> d.control
                == machine::ControlModel::Status(s)
            &&& step.next matches outside::NextModel::Done(BuiltinResult::Exit(s)) ==> d.control
                == machine::ControlModel::Exit(s)
        }),
{
}

} // verus!
