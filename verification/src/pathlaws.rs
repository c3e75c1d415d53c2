//! Laws of home directories, of pathname patterns, and of words on their way
//! through an expansion.

use crate::arith;
use crate::executor;
use crate::expand;
use crate::flowlaws;
use crate::interpolation;
use crate::machine;
use crate::pattern;
use crate::quoting;
use crate::state;
use crate::table;
use crate::text;
use crate::textlaws;
use crate::tokenizer::MARK;
use crate::wordlaws;
use vstd::prelude::*;

verus! {

// ---------------------------------------------------------------------------
// The tilde.
// ---------------------------------------------------------------------------

/// A text that neither splits nor globs nor loses a character.
pub open spec fn solid(t: Seq<char>) -> bool {
    forall|k: int|
        0 <= k < t.len() ==> !text::whitespace(#[trigger] t[k]) && t[k] != '*' && t[k] != '?'
            && t[k] != '[' && t[k] != MARK
}

/// A text in which no expansion begins.
pub open spec fn inert(t: Seq<char>) -> bool {
    forall|k: int| 0 <= k < t.len() ==> #[trigger] t[k] != '$' && t[k] != MARK
}

pub proof fn lemma_inert(
    t: Seq<char>,
    outputs: Seq<Seq<char>>,
    sc: arith::Scope,
    status: int,
)
    requires
        inert(t),
    ensures
        expand::commands_of(t) == Seq::<Seq<char>>::empty(),
        expand::substituted(t, outputs) == t,
        expand::expanded(t, sc, status) == (t, sc.vars),
{
    let marks = |c: char| false;
    let none = Seq::<char>::empty();
    wordlaws::lemma_unmarked(t, 0, marks);
    assert(t.skip(0) =~= t);
    assert(t =~= none + quoting::encoded_from(t, 0, marks));
    quoting::lemma_unsubstituted(t, none, t, 0, marks, outputs, 0, none, Seq::empty());
    quoting::lemma_unexpanded(t, none, t, 0, marks, sc, status, none);
}

pub proof fn lemma_solid(t: Seq<char>, command: bool, paths: Seq<Seq<char>>)
    requires
        t.len() > 0,
        solid(t),
    ensures
        expand::plan_words(expand::plan_of(t, command), paths) == seq![t],
        !(expand::plan_of(t, command) is Pathname),
{
    let marks = |c: char| false;
    wordlaws::lemma_unmarked(t, 0, marks);
    assert(t.skip(0) =~= t);
    quoting::lemma_marked_plan(t, marks, command, paths);
    lemma_globless(t, 0);
}

proof fn lemma_globless(t: Seq<char>, i: int)
    requires
        solid(t),
        0 <= i <= t.len(),
    ensures
        !expand::globs_from(t, i),
    decreases t.len() - i,
{
    if i < t.len() {
        lemma_globless(t, i + 1);
    }
}

/// A leading `~`, alone or before a `/`, stands for the home directory, at the
/// beginning of a word and nowhere else. The word ends up as the one argument
/// that is made of the home directory and the rest of the word; where the
/// environment names no home directory, or something else stands behind the
/// `~`, as the word itself.
pub proof fn law_tilde(
    rest: Seq<char>,
    home: Seq<char>,
    outputs: Seq<Seq<char>>,
    sc: arith::Scope,
    status: int,
    command: bool,
    paths: Seq<Seq<char>>,
    inputs: Seq<expand::WordInputs>,
)
    requires
        solid(rest),
        inert(rest),
        rest.len() == 0 || rest[0] == '/',
        home.len() > 0,
        solid(home),
        table::lookup(sc.vars.env, "HOME"@) == Some(home),
    ensures
        ({
            let word = seq!['~'] + rest;
            let there = home + rest;
            &&& expand::commands_of(word) == Seq::<Seq<char>>::empty()
            &&& expand::resolved(word, outputs, sc, status) == (there, sc.vars)
            &&& expand::plan_words(expand::plan_of(there, command), paths) == seq![there]
            &&& expand::args_from(seq![word], 0, Seq::empty(), command, sc, status, inputs) == (
                seq![there],
                sc.vars,
            )
        }),
{
    let word = seq!['~'] + rest;
    let there = home + rest;
    assert forall|k: int| 0 <= k < word.len() implies #[trigger] word[k] != '$' && word[k]
        != MARK by {
        if k > 0 {
            assert(word[k] == rest[k - 1]);
        }
    }
    assert(solid(there)) by {
        assert forall|k: int| 0 <= k < there.len() implies !text::whitespace(#[trigger] there[k])
            && there[k] != '*' && there[k] != '?' && there[k] != '[' && there[k] != MARK by {
            if k < home.len() {
                assert(there[k] == home[k]);
            } else {
                assert(there[k] == rest[k - home.len()]);
            }
        }
    }
    lemma_inert(word, outputs, sc, status);
    assert(word.skip(1) =~= rest);
    assert(rest.len() > 0 ==> word[1] == '/');
    lemma_solid(there, command, paths);
    let args = seq![word];
    let outside = expand::inputs_at(inputs, 0);
    lemma_inert(word, outside.outputs, sc, status);
    lemma_solid(there, command, outside.paths);
    reveal_with_fuel(expand::args_from, 2);
    assert(expand::args_from(args, 0, Seq::empty(), command, sc, status, inputs).0
        =~= seq![there]);
}

/// A word that does not begin with such a `~` keeps every `~` in it, and so
/// does any word where the environment names no home directory.
pub proof fn law_other_tildes(
    word: Seq<char>,
    outputs: Seq<Seq<char>>,
    sc: arith::Scope,
    status: int,
    command: bool,
    paths: Seq<Seq<char>>,
)
    requires
        word.len() > 0,
        solid(word),
        inert(word),
        word[0] != '~' || (word.len() > 1 && word[1] != '/') || table::lookup(
            sc.vars.env,
            "HOME"@,
        ) is None,
    ensures
        expand::resolved(word, outputs, sc, status) == (word, sc.vars),
        expand::plan_words(expand::plan_of(word, command), paths) == seq![word],
{
    lemma_inert(word, outputs, sc, status);
    lemma_solid(word, command, paths);
}

// ---------------------------------------------------------------------------
// Pathname patterns.
// ---------------------------------------------------------------------------

proof fn lemma_globs(t: Seq<char>, i: int, k: int)
    requires
        quoting::markless(t),
        0 <= i <= k < t.len(),
        t[k] == '*' || t[k] == '?' || t[k] == '[',
    ensures
        expand::globs_from(t, i),
    decreases k - i,
{
    if i < k {
        lemma_globs(t, i + 1, k);
    }
}

proof fn lemma_pattern_markless(s: Seq<char>, i: int, acc: Seq<char>)
    requires
        0 <= i <= s.len(),
        quoting::markless(s.skip(i)),
    ensures
        expand::pattern_from(s, i, acc) == acc + s.skip(i),
    decreases s.len() - i,
{
    if i < s.len() {
        assert(s.skip(i)[0] == s[i]);
        assert(s.skip(i + 1) =~= s.skip(i).skip(1));
        assert(quoting::markless(s.skip(i + 1)));
        lemma_pattern_markless(s, i + 1, acc.push(s[i]));
        assert(acc.push(s[i]) + s.skip(i + 1) =~= acc + s.skip(i));
    } else {
        assert(acc + s.skip(i) =~= acc);
    }
}

/// A word with `*`, `?` or `[` in it that is not quoted is a pattern for
/// paths: it becomes the paths that match, in the order in which they are
/// found, and stays as it is where none does.
pub proof fn law_pathnames(
    word: Seq<char>,
    k: int,
    outputs: Seq<Seq<char>>,
    sc: arith::Scope,
    status: int,
    command: bool,
    paths: Seq<Seq<char>>,
)
    requires
        inert(word),
        0 <= k < word.len(),
        word[k] == '*' || word[k] == '?' || word[k] == '[',
        word[0] != '~',
        command || !expand::assignment_word(word),
    ensures
        expand::resolved(word, outputs, sc, status) == (word, sc.vars),
        expand::plan_of(word, command) == (expand::PlanModel::Pathname {
            pattern: word,
            literal: word,
        }),
        expand::plan_words(expand::plan_of(word, command), paths) == if paths.len() == 0 {
            seq![word]
        } else {
            paths
        },
{
    lemma_inert(word, outputs, sc, status);
    assert(quoting::markless(word));
    lemma_globs(word, 0, k);
    assert(word.skip(0) =~= word);
    lemma_pattern_markless(word, 0, Seq::empty());
    wordlaws::lemma_strip_markless(word, 0, Seq::empty());
    assert(Seq::<char>::empty() + word =~= word);
}

/// In a pattern, what is quoted stands for itself and what is not keeps its
/// meaning.
pub proof fn law_quoted_part_of_pattern(t: Seq<char>, w: Seq<char>)
    requires
        quoting::markless(w),
    ensures
        expand::pattern_of(quoting::encoded(t, quoting::literal_marks()) + w) == pattern::escaped(t)
            + w,
{
    let marks = quoting::literal_marks();
    let none = Seq::<char>::empty();
    let s = quoting::encoded(t, marks) + w;
    assert(s =~= none + quoting::encoded_from(t, 0, marks) + w);
    assert(t.take(0) =~= none);
    lemma_pattern_front(s, none, t, 0, w);
}

proof fn lemma_pattern_front(s: Seq<char>, pre: Seq<char>, t: Seq<char>, i: int, w: Seq<char>)
    requires
        s == pre + quoting::encoded_from(t, i, quoting::literal_marks()) + w,
        0 <= i <= t.len(),
        quoting::markless(w),
    ensures
        expand::pattern_from(s, pre.len() as int, pattern::escaped(t.take(i))) == pattern::escaped(
            t,
        ) + w,
    decreases t.len() - i,
{
    let marks = quoting::literal_marks();
    let at = pre.len() as int;
    if i == t.len() {
        assert(t.take(i) =~= t);
        assert(s.skip(at) =~= w);
        lemma_pattern_markless(s, at, pattern::escaped(t));
    } else {
        let one = quoting::encoded_char(t[i], marks);
        assert(s =~= (pre + one) + quoting::encoded_from(t, i + 1, marks) + w);
        assert(t.take(i + 1).drop_last() =~= t.take(i));
        assert(t.take(i + 1).last() == t[i]);
        lemma_pattern_front(s, pre + one, t, i + 1, w);
        assert(s[at] == one[0]);
        if marks(t[i]) {
            assert(s[at + 1] == t[i]);
        }
        assert(pattern::escaped(t.take(i + 1)) =~= pattern::escaped(t.take(i))
            + expand::pattern_literal(t[i]));
        assert(!expand::glob_char(t[i]) ==> pattern::escaped(t.take(i + 1)) =~= pattern::escaped(
            t.take(i),
        ).push(t[i]));
    }
}

// ---------------------------------------------------------------------------
// Words on their way.
// ---------------------------------------------------------------------------

/// A word that comes to exactly one text on a state, without a question to the
/// world outside, and changes nothing.
#[verifier::opaque]
pub open spec fn single(w: Seq<char>, t: Seq<char>, st: state::StateModel) -> bool {
    let sc = arith::Scope { vars: st.vars, positional: st.positional };
    let r = expand::resolved(w, Seq::empty(), sc, st.last_status as int);
    &&& expand::commands_of(w).len() == 0
    &&& r.1 == st.vars
    &&& forall|command: bool|
        !(#[trigger] expand::plan_of(r.0, command) is Pathname) && expand::plan_words(
            expand::plan_of(r.0, command),
            Seq::empty(),
        ) == seq![t]
}

/// The expansion behind its first word.
spec fn behind_first(e: machine::ExpandModel, t: Seq<char>, seen: bool) -> machine::ExpandModel {
    machine::ExpandModel {
        words: e.words.skip(1),
        done: e.done.push(t),
        command: e.command || seen,
        pending: expand::commands_of(e.words[0]),
        outputs: Seq::empty(),
        ..e
    }
}

proof fn lemma_word_arrives(
    c: machine::Config,
    e: machine::ExpandModel,
    t: Seq<char>,
    n: nat,
) -> (seen: bool)
    requires
        c.control is NextWord,
        c.frames.len() > 0,
        c.frames.last() == machine::FrameModel::Expand(e),
        !e.patterns,
        c.st.vars.notices.len() == 0,
        e.words.len() > 0,
        single(e.words[0], t, c.st),
    ensures
        executor::after_steps(c, n + 2) == executor::after_steps(
            c.replace(machine::FrameModel::Expand(behind_first(e, t, seen))),
            n,
        ),
{
    reveal(single);
    let w = e.words[0];
    let c1 = executor::step(c);
    let e1 = machine::ExpandModel { pending: expand::commands_of(w), outputs: Seq::empty(), ..e };
    assert(c1.frames.last() == machine::FrameModel::Expand(e1));
    let c2 = executor::step(c1);
    let sc = arith::Scope { vars: c.st.vars, positional: c.st.positional };
    let r = expand::resolved(w, Seq::empty(), sc, c.st.last_status as int);
    let plan = expand::plan_of(r.0, e.command);
    assert(expand::plan_words(plan, Seq::empty()) == seq![t]);
    assert(e.done + seq![t] =~= e.done.push(t));
    assert(executor::notice_lines(Seq::empty()) =~= Seq::empty());
    assert(c.st.vars.notices =~= Seq::empty());
    assert(c.lines + Seq::empty() =~= c.lines);
    assert(c2 == executor::finish_resolve(c1, e1));
    let seen = !expand::assignment_word(r.0);
    let e2 = behind_first(e, t, seen);
    assert(c2.frames =~= c.frames.drop_last().push(machine::FrameModel::Expand(e2)));
    lemma_two_steps(c, n);
    seen
}

#[verifier::rlimit(40)]
proof fn lemma_words_arrive(c: machine::Config, e: machine::ExpandModel, ts: Seq<Seq<char>>)
    requires
        c.control is NextWord,
        c.frames.len() > 0,
        c.frames.last() == machine::FrameModel::Expand(e),
        !e.patterns,
        c.st.vars.notices.len() == 0,
        ts.len() == e.words.len(),
        forall|k: int| 0 <= k < ts.len() ==> single(#[trigger] e.words[k], ts[k], c.st),
    ensures
        executor::after_steps(c, 2 * ts.len() + 1) == c.pop().go(
            machine::ControlModel::Words(e.done + ts),
        ),
    decreases ts.len(),
{
    if ts.len() == 0 {
        reveal_with_fuel(executor::after_steps, 2);
        assert(e.done + ts =~= e.done);
    } else {
        assert(single(e.words[0], ts[0], c.st));
        let later = ts.skip(1);
        let n = (2 * later.len() + 1) as nat;
        let seen = lemma_word_arrives(c, e, ts[0], n);
        let e2 = behind_first(e, ts[0], seen);
        let c2 = c.replace(machine::FrameModel::Expand(e2));
        assert forall|k: int| 0 <= k < later.len() implies single(
            #[trigger] e2.words[k],
            later[k],
            c2.st,
        ) by {
            assert(e2.words[k] == e.words[k + 1]);
        }
        lemma_words_arrive(c2, e2, later);
        assert(n + 2 == 2 * ts.len() + 1);
        assert(e2.done + later =~= e.done + ts);
        assert(c2.pop().frames =~= c.pop().frames);
    }
}

proof fn lemma_two_steps(c: machine::Config, n: nat)
    requires
        c.control is NextWord,
        executor::step(c).control is Resolve,
    ensures
        executor::after_steps(c, n + 2) == executor::after_steps(
            executor::step(executor::step(c)),
            n,
        ),
{
    reveal_with_fuel(executor::after_steps, 3);
}

/// Words that come to one text each arrive as these texts, all of them and in
/// order, and the expansion leaves nothing else behind.
pub proof fn law_words_arrive(
    c: machine::Config,
    words: Seq<Seq<char>>,
    ts: Seq<Seq<char>>,
)
    requires
        c.st.vars.notices.len() == 0,
        ts.len() == words.len(),
        forall|k: int| 0 <= k < ts.len() ==> single(#[trigger] words[k], ts[k], c.st),
    ensures
        executor::after_steps(executor::begin_expand(c, words, false), 2 * ts.len() + 1) == c.go(
            machine::ControlModel::Words(ts),
        ),
{
    let d = executor::begin_expand(c, words, false);
    let e = d.frames.last()->Expand_0;
    lemma_words_arrive(d, e, ts);
    assert(d.pop().frames =~= c.frames);
    assert(e.done + ts =~= ts);
}

/// A word without anything special in it comes to itself on every state.
pub proof fn law_plain_words_are_single(w: Seq<char>, st: state::StateModel)
    requires
        w.len() > 0,
        solid(w),
        inert(w),
        w[0] != '~',
    ensures
        single(w, w, st),
{
    reveal(single);
    let sc = arith::Scope { vars: st.vars, positional: st.positional };
    lemma_inert(w, Seq::empty(), sc, st.last_status as int);
    assert forall|command: bool|
        !(#[trigger] expand::plan_of(w, command) is Pathname) && expand::plan_words(
            expand::plan_of(w, command),
            Seq::empty(),
        ) == seq![w] by {
        lemma_solid(w, command, Seq::empty());
    }
}

/// On a state whose environment names a home directory, `~` and `~/...` come
/// to the path there.
pub proof fn law_home_words_are_single(rest: Seq<char>, home: Seq<char>, st: state::StateModel)
    requires
        solid(rest),
        inert(rest),
        rest.len() == 0 || rest[0] == '/',
        home.len() > 0,
        solid(home),
        table::lookup(st.vars.env, "HOME"@) == Some(home),
    ensures
        single(seq!['~'] + rest, home + rest, st),
{
    reveal(single);
    let sc = arith::Scope { vars: st.vars, positional: st.positional };
    let t = home + rest;
    law_tilde(
        rest,
        home,
        Seq::empty(),
        sc,
        st.last_status as int,
        true,
        Seq::empty(),
        Seq::empty(),
    );
    assert(solid(t)) by {
        assert forall|k: int| 0 <= k < t.len() implies !text::whitespace(#[trigger] t[k]) && t[k]
            != '*' && t[k] != '?' && t[k] != '[' && t[k] != MARK by {
            if k < home.len() {
                assert(t[k] == home[k]);
            } else {
                assert(t[k] == rest[k - home.len()]);
            }
        }
    }
    assert forall|command: bool|
        !(#[trigger] expand::plan_of(t, command) is Pathname) && expand::plan_words(
            expand::plan_of(t, command),
            Seq::empty(),
        ) == seq![t] by {
        lemma_solid(t, command, Seq::empty());
    }
}

/// A word that is a pattern for paths is asked about as it stands, and the
/// paths that come back, or the word where none does, join the words before.
pub proof fn law_patterns_are_asked_about(
    c: machine::Config,
    e: machine::ExpandModel,
    k: int,
    paths: Seq<Seq<char>>,
)
    requires
        c.control is Resolve,
        c.frames.len() > 0,
        c.frames.last() == machine::FrameModel::Expand(e),
        !e.patterns,
        e.pending.len() == 0,
        e.words.len() > 0,
        inert(e.words[0]),
        0 <= k < e.words[0].len(),
        e.words[0][k] == '*' || e.words[0][k] == '?' || e.words[0][k] == '[',
        e.words[0][0] != '~',
        e.command || !expand::assignment_word(e.words[0]),
    ensures
        ({
            let word = e.words[0];
            let d = executor::step(c);
            let f = executor::answered(d, machine::AnswerModel::Paths(paths));
            &&& d.control == machine::ControlModel::Ask(
                machine::ActionModel::Glob { pattern: word, literal: word },
            )
            &&& f.control is NextWord
            &&& f.frames.drop_last() == c.frames.drop_last()
            &&& f.frames.last() matches machine::FrameModel::Expand(g) && g.words == e.words.skip(1)
                && g.done == e.done + if paths.len() == 0 {
                seq![word]
            } else {
                paths
            } && g.command
        }),
{
    let word = e.words[0];
    let sc = arith::Scope { vars: c.st.vars, positional: c.st.positional };
    law_pathnames(word, k, e.outputs, sc, c.st.last_status as int, e.command, paths);
    let d = executor::step(c);
    assert(d == executor::finish_resolve(c, e));
    let f = executor::answered(d, machine::AnswerModel::Paths(paths));
    assert(f.frames.drop_last() =~= c.frames.drop_last());
}

// ---------------------------------------------------------------------------
// Assignments, arguments and patterns of `case`.
// ---------------------------------------------------------------------------

/// An assignment in front of the command is one word, whatever its value
/// holds: it is neither split nor a pattern. Behind the command nothing is an
/// assignment: such a word splits and is a pattern like any other.
pub proof fn law_assignment_words(
    name: Seq<char>,
    value: Seq<char>,
    w: Seq<char>,
    paths: Seq<Seq<char>>,
)
    requires
        expand::valid_name(name),
        quoting::markless(value),
        quoting::markless(w),
    ensures
        expand::plan_words(expand::plan_of(name + seq!['='] + value, false), paths)
            == seq![name + seq!['='] + value],
        forall|command: bool|
            (command || !expand::assignment_word(w)) && !expand::globs_from(w, 0)
                ==> expand::plan_words(#[trigger] expand::plan_of(w, command), paths)
                == text::words(w),
{
    let t = name + seq!['='] + value;
    flowlaws::lemma_split_word(name, value, 0);
    assert(t.take(name.len() as int) =~= name);
    interpolation::lemma_name_chars(name);
    assert forall|k: int| 0 <= k < t.len() implies #[trigger] t[k] != MARK by {
        if k < name.len() {
            assert(t[k] == name[k]);
        } else if k > name.len() {
            assert(t[k] == value[k - name.len() - 1]);
        }
    }
    wordlaws::lemma_strip_markless(t, 0, Seq::empty());
    assert(Seq::empty() + t.skip(0) =~= t);
    wordlaws::law_fields_are_words(w);
}

/// From the first word on that is no assignment, nothing is taken for one.
pub proof fn law_command_word_is_seen(c: machine::Config, e: machine::ExpandModel)
    requires
        c.control is Resolve,
        c.frames.len() > 0,
        c.frames.last() == machine::FrameModel::Expand(e),
        e.pending.len() == 0,
        e.words.len() > 0,
    ensures
        ({
            let w = expand::resolved(
                e.words[0],
                e.outputs,
                arith::Scope { vars: c.st.vars, positional: c.st.positional },
                c.st.last_status as int,
            ).0;
            executor::step(c).frames.last() matches machine::FrameModel::Expand(f) && f.words
                == e.words.skip(1) && f.command == (e.command || !expand::assignment_word(w))
                && f.patterns == e.patterns && f.snapshot == e.snapshot
        }),
{
    assert(executor::step(c) == executor::finish_resolve(c, e));
}

proof fn lemma_args_in_order(
    args: Seq<Seq<char>>,
    i: int,
    acc: Seq<Seq<char>>,
    command: bool,
    sc: arith::Scope,
    status: int,
    inputs: Seq<expand::WordInputs>,
)
    requires
        0 <= i <= args.len(),
        forall|k: int|
            0 <= k < args.len() ==> (#[trigger] args[k]).len() > 0 && solid(args[k]) && inert(
                args[k],
            ) && args[k][0] != '~',
    ensures
        expand::args_from(args, i, acc, command, sc, status, inputs) == (acc + args.skip(i), sc.vars),
    decreases args.len() - i,
{
    if i < args.len() {
        let outside = expand::inputs_at(inputs, i);
        law_other_tildes(args[i], outside.outputs, sc, status, command, outside.paths);
        let plan = expand::plan_of(args[i], command);
        lemma_args_in_order(
            args,
            i + 1,
            acc + seq![args[i]],
            command || !(plan is Assignment),
            sc,
            status,
            inputs,
        );
        assert(arith::Scope { vars: sc.vars, positional: sc.positional } == sc);
        assert(acc + seq![args[i]] + args.skip(i + 1) =~= acc + args.skip(i));
    } else {
        assert(acc + args.skip(i) =~= acc);
    }
}

/// Words without anything special in them are the arguments, all of them and in
/// order.
pub proof fn law_plain_arguments(
    args: Seq<Seq<char>>,
    sc: arith::Scope,
    status: int,
    inputs: Seq<expand::WordInputs>,
)
    requires
        forall|k: int|
            0 <= k < args.len() ==> (#[trigger] args[k]).len() > 0 && solid(args[k]) && inert(
                args[k],
            ) && args[k][0] != '~',
    ensures
        expand::args_from(args, 0, Seq::empty(), false, sc, status, inputs) == (args, sc.vars),
{
    lemma_args_in_order(args, 0, Seq::empty(), false, sc, status, inputs);
    assert(Seq::empty() + args.skip(0) =~= args);
}

/// Arguments expand from left to right, each on the variables that those
/// before it leave: the last one adds its words behind those of the others.
pub proof fn law_arguments_in_order(
    args: Seq<Seq<char>>,
    x: Seq<char>,
    sc: arith::Scope,
    status: int,
    inputs: Seq<expand::WordInputs>,
)
    ensures
        ({
            let before = expand::args_from(args, 0, Seq::empty(), true, sc, status, inputs);
            let after = expand::args_from(args.push(x), 0, Seq::empty(), true, sc, status, inputs);
            let given = expand::inputs_at(inputs, args.len() as int);
            let r = expand::resolved(
                x,
                given.outputs,
                arith::Scope { vars: before.1, positional: sc.positional },
                status,
            );
            &&& after.0 == before.0 + expand::plan_words(expand::plan_of(r.0, true), given.paths)
            &&& after.1 == r.1
        }),
{
    lemma_args_push(args, x, 0, Seq::empty(), sc, status, inputs);
}

proof fn lemma_args_push(
    args: Seq<Seq<char>>,
    x: Seq<char>,
    i: int,
    acc: Seq<Seq<char>>,
    sc: arith::Scope,
    status: int,
    inputs: Seq<expand::WordInputs>,
)
    requires
        0 <= i <= args.len(),
    ensures
        ({
            let before = expand::args_from(args, i, acc, true, sc, status, inputs);
            let after = expand::args_from(args.push(x), i, acc, true, sc, status, inputs);
            let given = expand::inputs_at(inputs, args.len() as int);
            let r = expand::resolved(
                x,
                given.outputs,
                arith::Scope { vars: before.1, positional: sc.positional },
                status,
            );
            &&& after.0 == before.0 + expand::plan_words(expand::plan_of(r.0, true), given.paths)
            &&& after.1 == r.1
        }),
    decreases args.len() - i,
{
    let more = args.push(x);
    let given = expand::inputs_at(inputs, i);
    if i < args.len() {
        assert(more[i] == args[i]);
        let (w, v) = expand::resolved(args[i], given.outputs, sc, status);
        let plan = expand::plan_of(w, true);
        let next = arith::Scope { vars: v, positional: sc.positional };
        lemma_args_push(
            args,
            x,
            i + 1,
            acc + expand::plan_words(plan, given.paths),
            next,
            status,
            inputs,
        );
    } else {
        assert(more[i] == x);
        reveal_with_fuel(expand::args_from, 2);
        assert(arith::Scope { vars: sc.vars, positional: sc.positional } == sc);
    }
}

proof fn lemma_run_patterns(rs: Seq<Seq<char>>)
    requires
        forall|k: int| 0 <= k < rs.len() ==> quoting::markless(#[trigger] rs[k]),
    ensures
        rs.map_values(|r: Seq<char>| expand::pattern_of(r)) == rs,
{
    assert forall|k: int| 0 <= k < rs.len() implies expand::pattern_of(#[trigger] rs[k])
        == rs[k] by {
        assert(rs[k].skip(0) =~= rs[k]);
        lemma_pattern_markless(rs[k], 0, Seq::empty());
        assert(Seq::<char>::empty() + rs[k] =~= rs[k]);
    }
    assert(rs.map_values(|r: Seq<char>| expand::pattern_of(r)) =~= rs);
}

/// The patterns of a `case`: an unquoted word with a pattern character in it is
/// one pattern as it stands, and any other word one pattern for each of its
/// fields.
pub proof fn law_case_patterns(w: Seq<char>, command: bool, k: int)
    requires
        quoting::markless(w),
    ensures
        0 <= k < w.len() && (w[k] == '*' || w[k] == '?' || w[k] == '[') ==> expand::patterns_of(
            w,
            command,
        ) == seq![w],
        command && !expand::globs_from(w, 0) ==> expand::patterns_of(w, command) == text::words(w),
        w.len() > 0 && solid(w) ==> expand::patterns_of(w, command) == seq![w],
{
    assert(w.skip(0) =~= w);
    lemma_pattern_markless(w, 0, Seq::empty());
    assert(Seq::<char>::empty() + w =~= w);
    if 0 <= k < w.len() && (w[k] == '*' || w[k] == '?' || w[k] == '[') {
        lemma_globs(w, 0, k);
    }
    wordlaws::lemma_runs_are_words(w, 0, Seq::empty(), Seq::empty());
    assert(Seq::empty() + text::words(w) =~= text::words(w));
    lemma_run_patterns(expand::runs(w));
    if w.len() > 0 && solid(w) {
        assert(wordlaws::spaceless(w));
        textlaws::law_words(w, ' ', Seq::empty());
    }
}

/// The words of an arm of a `case` become patterns, behind those of the words
/// before, and no path is asked for.
pub proof fn law_arms_become_patterns(c: machine::Config, e: machine::ExpandModel)
    requires
        c.control is Resolve,
        c.frames.len() > 0,
        c.frames.last() == machine::FrameModel::Expand(e),
        e.patterns,
        e.pending.len() == 0,
        e.words.len() > 0,
        e.words[0].len() > 0,
        inert(e.words[0]),
        e.words[0][0] != '~',
        wordlaws::spaceless(e.words[0]),
    ensures
        ({
            let d = executor::step(c);
            &&& d.control is NextWord
            &&& d.frames.drop_last() == c.frames.drop_last()
            &&& d.frames.last() matches machine::FrameModel::Expand(f) && f.done == e.done.push(
                e.words[0],
            ) && f.words == e.words.skip(1)
        }),
{
    let w = e.words[0];
    let sc = arith::Scope { vars: c.st.vars, positional: c.st.positional };
    lemma_inert(w, e.outputs, sc, c.st.last_status as int);
    assert(quoting::markless(w));
    let d = executor::step(c);
    assert(d == executor::finish_resolve(c, e));
    assert(d.frames.drop_last() =~= c.frames.drop_last());
    if solid(w) {
        law_case_patterns(w, e.command, 0);
    } else {
        let k = choose|k: int|
            0 <= k < w.len() && (text::whitespace(#[trigger] w[k]) || w[k] == '*' || w[k] == '?'
                || w[k] == '[' || w[k] == MARK);
        law_case_patterns(w, e.command, k);
    }
    assert(e.done + seq![w] =~= e.done.push(w));
}

} // verus!
