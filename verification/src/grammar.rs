//! The grammar, told from the other side: how a program is written down as
//! tokens, and the law that the parser reads every written program back.

use crate::parser;
use crate::parser::Closer;
use crate::syntax;
use crate::syntax::Connector;
use crate::text;
use crate::tokenizer;
use vstd::prelude::*;

verus! {

// ---------------------------------------------------------------------------
// Programs as tokens.
// ---------------------------------------------------------------------------

/// A single word.
pub open spec fn one_word(w: Seq<char>) -> Seq<tokenizer::TokenModel> {
    seq![tokenizer::TokenModel::Word(w)]
}

/// The words of a command.
pub open spec fn words_written(ws: Seq<Seq<char>>) -> Seq<tokenizer::TokenModel> {
    Seq::new(ws.len(), |k: int| tokenizer::TokenModel::Word(ws[k]))
}

/// The redirections of a command.
pub open spec fn redirects_written(rs: Seq<syntax::RedirectModel>) -> Seq<tokenizer::TokenModel> {
    Seq::new(rs.len(), |k: int| tokenizer::TokenModel::Redirect(rs[k].kind, rs[k].target))
}

/// A simple command: its words, then its redirections.
pub open spec fn simple_written(c: syntax::SimpleModel) -> Seq<tokenizer::TokenModel> {
    words_written(c.args) + redirects_written(c.redirects)
}

/// Commands with `|` in between.
pub open spec fn commands_written(cs: Seq<syntax::SimpleModel>) -> Seq<tokenizer::TokenModel>
    decreases cs.len(),
{
    if cs.len() == 0 {
        Seq::empty()
    } else if cs.len() == 1 {
        simple_written(cs[0])
    } else {
        simple_written(cs[0]) + seq![tokenizer::TokenModel::Pipe] + commands_written(cs.skip(1))
    }
}

/// A pipeline.
pub open spec fn pipeline_written(p: syntax::PipelineModel) -> Seq<tokenizer::TokenModel> {
    if p.background {
        commands_written(p.commands) + seq![tokenizer::TokenModel::Background]
    } else {
        commands_written(p.commands)
    }
}

/// The token of a connector.
pub open spec fn connector_written(c: Connector) -> tokenizer::TokenModel {
    match c {
        Connector::And => tokenizer::TokenModel::And,
        Connector::Or => tokenizer::TokenModel::Or,
        Connector::Sequence => tokenizer::TokenModel::Semicolon,
    }
}

/// Patterns with `|` in between, up to the `)`.
pub open spec fn patterns_written(ps: Seq<Seq<char>>) -> Seq<tokenizer::TokenModel>
    decreases ps.len(),
{
    if ps.len() == 0 {
        Seq::empty()
    } else if ps.len() == 1 {
        one_word(ps[0]) + seq![tokenizer::TokenModel::RParen]
    } else {
        one_word(ps[0]) + seq![tokenizer::TokenModel::Pipe] + patterns_written(ps.skip(1))
    }
}

/// A list of jobs, each with its connector behind it.
pub open spec fn list_written(jobs: Seq<syntax::JobModel>) -> Seq<tokenizer::TokenModel>
    decreases jobs,
{
    if jobs.len() == 0 {
        Seq::empty()
    } else {
        unit_written(jobs[0].unit) + seq![connector_written(jobs[0].connector)] + list_written(
            jobs.subrange(1, jobs.len() as int),
        )
    }
}

/// A unit.
pub open spec fn unit_written(u: syntax::UnitModel) -> Seq<tokenizer::TokenModel>
    decreases u,
{
    match u {
        syntax::UnitModel::Pipeline(p) => pipeline_written(p),
        syntax::UnitModel::Compound(c) => compound_written(c),
        syntax::UnitModel::Group(jobs) => seq![tokenizer::TokenModel::LBrace] + list_written(jobs)
            + seq![tokenizer::TokenModel::RBrace],
    }
}

/// The branches of an `if`, with `elif` in between.
pub open spec fn branches_written(
    branches: Seq<(Seq<syntax::JobModel>, Seq<syntax::JobModel>)>,
) -> Seq<tokenizer::TokenModel>
    decreases branches,
{
    if branches.len() == 0 {
        Seq::empty()
    } else {
        let first = list_written(branches[0].0) + one_word("then"@) + list_written(branches[0].1);
        if branches.len() == 1 {
            first
        } else {
            first + one_word("elif"@) + branches_written(
                branches.subrange(1, branches.len() as int),
            )
        }
    }
}

/// The arms of a `case`, each with `;;` behind it.
pub open spec fn arms_written(arms: Seq<syntax::CaseArmModel>) -> Seq<tokenizer::TokenModel>
    decreases arms,
{
    if arms.len() == 0 {
        Seq::empty()
    } else {
        patterns_written(arms[0].patterns) + list_written(arms[0].body) + seq![
            tokenizer::TokenModel::CaseEnd,
        ] + arms_written(arms.subrange(1, arms.len() as int))
    }
}

/// A compound command.
pub open spec fn compound_written(c: syntax::CompoundModel) -> Seq<tokenizer::TokenModel>
    decreases c,
{
    match c {
        syntax::CompoundModel::If(chain) => match chain.else_body {
            None => one_word("if"@) + branches_written(chain.branches) + one_word("fi"@),
            Some(other) => one_word("if"@) + branches_written(chain.branches) + one_word("else"@)
                + list_written(other) + one_word("fi"@),
        },
        syntax::CompoundModel::For { var, words, body } => one_word("for"@) + one_word(var)
            + one_word("in"@) + words_written(words) + seq![tokenizer::TokenModel::Semicolon]
            + one_word("do"@) + list_written(body) + one_word("done"@),
        syntax::CompoundModel::While { cond, body, until } => one_word(loop_word(until))
            + list_written(cond) + one_word("do"@) + list_written(body) + one_word("done"@),
        syntax::CompoundModel::Case { word, arms } => one_word("case"@) + one_word(word)
            + one_word("in"@) + arms_written(arms) + one_word("esac"@),
        syntax::CompoundModel::FunctionDef { name, body } => one_word(name) + seq![
            tokenizer::TokenModel::LParen,
            tokenizer::TokenModel::RParen,
            tokenizer::TokenModel::LBrace,
        ] + list_written(body) + seq![tokenizer::TokenModel::RBrace],
    }
}

/// The word that opens a loop.
pub open spec fn loop_word(until: bool) -> Seq<char> {
    if until {
        "until"@
    } else {
        "while"@
    }
}

// ---------------------------------------------------------------------------
// Programs that can be written.
// ---------------------------------------------------------------------------

/// A word that the grammar keeps for itself where a command may begin.
pub open spec fn reserved(w: Seq<char>) -> bool {
    ||| w == "if"@ || w == "for"@ || w == "while"@ || w == "until"@ || w == "case"@
    ||| w == "then"@ || w == "elif"@ || w == "else"@ || w == "fi"@
    ||| w == "do"@ || w == "done"@ || w == "esac"@
}

/// Every command has a word or a redirection, and the first one does not begin
/// with a reserved word.
pub open spec fn sound_pipeline(p: syntax::PipelineModel) -> bool {
    &&& p.commands.len() > 0
    &&& p.commands[0].args.len() > 0 ==> !reserved(p.commands[0].args[0])
    &&& forall|k: int|
        0 <= k < p.commands.len() ==> (#[trigger] p.commands[k]).args.len() > 0
            || p.commands[k].redirects.len() > 0
}

/// Every unit of the list can be written.
pub open spec fn sound_list(jobs: Seq<syntax::JobModel>) -> bool
    decreases jobs,
{
    jobs.len() > 0 ==> sound_unit(jobs[0].unit) && sound_list(
        jobs.subrange(1, jobs.len() as int),
    )
}

/// The unit can be written.
pub open spec fn sound_unit(u: syntax::UnitModel) -> bool
    decreases u,
{
    match u {
        syntax::UnitModel::Pipeline(p) => sound_pipeline(p),
        syntax::UnitModel::Compound(c) => sound_compound(c),
        syntax::UnitModel::Group(jobs) => sound_list(jobs),
    }
}

/// Every branch can be written.
pub open spec fn sound_branches(
    branches: Seq<(Seq<syntax::JobModel>, Seq<syntax::JobModel>)>,
) -> bool
    decreases branches,
{
    branches.len() > 0 ==> sound_list(branches[0].0) && sound_list(branches[0].1)
        && sound_branches(branches.subrange(1, branches.len() as int))
}

/// Every arm can be written: it has a pattern, and the first one is not `esac`.
pub open spec fn sound_arms(arms: Seq<syntax::CaseArmModel>) -> bool
    decreases arms,
{
    arms.len() > 0 ==> arms[0].patterns.len() > 0 && arms[0].patterns[0] != "esac"@ && sound_list(
        arms[0].body,
    ) && sound_arms(arms.subrange(1, arms.len() as int))
}

/// The compound command can be written.
pub open spec fn sound_compound(c: syntax::CompoundModel) -> bool
    decreases c,
{
    match c {
        syntax::CompoundModel::If(chain) => chain.branches.len() > 0 && sound_branches(
            chain.branches,
        ) && (match chain.else_body {
            Some(other) => sound_list(other),
            None => true,
        }),
        syntax::CompoundModel::For { var: _, words, body } => (forall|k: int|
            0 <= k < words.len() ==> #[trigger] words[k] != "do"@) && sound_list(body),
        syntax::CompoundModel::While { cond, body, until: _ } => sound_list(cond) && sound_list(
            body,
        ),
        syntax::CompoundModel::Case { word: _, arms } => sound_arms(arms),
        syntax::CompoundModel::FunctionDef { name, body } => !reserved(name) && sound_list(body),
    }
}

// ---------------------------------------------------------------------------
// Tokens in their place.
// ---------------------------------------------------------------------------

/// The tokens `p` stand at `i`.
pub open spec fn stands_at(
    ts: Seq<tokenizer::TokenModel>,
    i: int,
    p: Seq<tokenizer::TokenModel>,
) -> bool {
    &&& 0 <= i && i + p.len() <= ts.len()
    &&& forall|k: int| 0 <= k < p.len() ==> ts[i + k] == #[trigger] p[k]
}

proof fn lemma_split(
    ts: Seq<tokenizer::TokenModel>,
    i: int,
    a: Seq<tokenizer::TokenModel>,
    b: Seq<tokenizer::TokenModel>,
)
    requires
        stands_at(ts, i, a + b),
    ensures
        stands_at(ts, i, a),
        stands_at(ts, i + a.len(), b),
{
    assert forall|k: int| 0 <= k < a.len() implies ts[i + k] == #[trigger] a[k] by {
        assert((a + b)[k] == a[k]);
    }
    assert forall|k: int| 0 <= k < b.len() implies ts[i + a.len() + k] == #[trigger] b[k] by {
        assert((a + b)[a.len() + k] == b[k]);
    }
}

/// A word stands at `i`, and `b` behind it.
proof fn lemma_word_first(
    ts: Seq<tokenizer::TokenModel>,
    i: int,
    w: Seq<char>,
    b: Seq<tokenizer::TokenModel>,
)
    requires
        stands_at(ts, i, one_word(w) + b),
    ensures
        parser::at_word(ts, i, w),
        parser::word_at(ts, i) == Some(w),
        stands_at(ts, i + 1, b),
{
    lemma_split(ts, i, one_word(w), b);
    assert(one_word(w)[0] == tokenizer::TokenModel::Word(w));
}

/// Neither a word nor a redirection stands at `k`.
pub open spec fn breaks(ts: Seq<tokenizer::TokenModel>, k: int) -> bool {
    k >= ts.len() || !(ts[k] is Word || ts[k] is Redirect)
}

proof fn lemma_simple(ts: Seq<tokenizer::TokenModel>, i: int, c: syntax::SimpleModel, k: int)
    requires
        stands_at(ts, i, simple_written(c)),
        0 <= k <= c.args.len() + c.redirects.len(),
        breaks(ts, i + c.args.len() + c.redirects.len()),
    ensures
        simple_written(c).len() == c.args.len() + c.redirects.len(),
        parser::simple_from(
            ts,
            i + k,
            syntax::SimpleModel {
                args: c.args.take(
                    if k <= c.args.len() {
                        k
                    } else {
                        c.args.len() as int
                    },
                ),
                redirects: c.redirects.take(
                    if k <= c.args.len() {
                        0
                    } else {
                        k - c.args.len()
                    },
                ),
            },
        ) == (c, i + c.args.len() + c.redirects.len()),
    decreases c.args.len() + c.redirects.len() - k,
{
    let n = c.args.len() as int;
    let p = simple_written(c);
    if k < n {
        assert(p[k] == tokenizer::TokenModel::Word(c.args[k]));
        assert(c.args.take(k).push(c.args[k]) =~= c.args.take(k + 1));
        assert(c.redirects.take(0) =~= Seq::empty());
        lemma_simple(ts, i, c, k + 1);
    } else if k < n + c.redirects.len() {
        let r = c.redirects[k - n];
        assert(p[k] == tokenizer::TokenModel::Redirect(r.kind, r.target));
        assert(r == (syntax::RedirectModel { kind: r.kind, target: r.target }));
        assert(c.args.take(n) =~= c.args);
        assert(c.redirects.take(k - n).push(r) =~= c.redirects.take(k - n + 1));
        lemma_simple(ts, i, c, k + 1);
    } else {
        assert(c.args.take(n) =~= c.args);
        assert(c.redirects.take(k - n) =~= c.redirects);
    }
}

proof fn lemma_commands(
    ts: Seq<tokenizer::TokenModel>,
    i: int,
    cs: Seq<syntax::SimpleModel>,
    before: Seq<syntax::SimpleModel>,
)
    requires
        cs.len() > 0,
        forall|k: int|
            0 <= k < cs.len() ==> (#[trigger] cs[k]).args.len() > 0 || cs[k].redirects.len() > 0,
        stands_at(ts, i, commands_written(cs)),
        breaks(ts, i + commands_written(cs).len()),
        !parser::at(ts, i + commands_written(cs).len(), tokenizer::TokenModel::Pipe),
    ensures
        parser::pipeline_from(ts, i, before) == if parser::at(
            ts,
            i + commands_written(cs).len(),
            tokenizer::TokenModel::Background,
        ) {
            Ok::<(syntax::PipelineModel, int), Seq<char>>(
                (
                    syntax::PipelineModel { commands: before + cs, background: true },
                    i + commands_written(cs).len() + 1,
                ),
            )
        } else {
            Ok::<(syntax::PipelineModel, int), Seq<char>>(
                (
                    syntax::PipelineModel { commands: before + cs, background: false },
                    i + commands_written(cs).len(),
                ),
            )
        },
    decreases cs.len(),
{
    let c = cs[0];
    let none = syntax::SimpleModel { args: Seq::empty(), redirects: Seq::empty() };
    assert(c.args.take(0) =~= none.args);
    assert(c.redirects.take(0) =~= none.redirects);
    if cs.len() == 1 {
        lemma_simple(ts, i, c, 0);
        assert(before.push(c) =~= before + cs);
    } else {
        let rest = cs.skip(1);
        let pipe = seq![tokenizer::TokenModel::Pipe];
        assert forall|k: int| 0 <= k < rest.len() implies (#[trigger] rest[k]).args.len() > 0
            || rest[k].redirects.len() > 0 by {
            assert(rest[k] == cs[k + 1]);
        }
        lemma_split(ts, i, simple_written(c) + pipe, commands_written(rest));
        lemma_split(ts, i, simple_written(c), pipe);
        assert(pipe[0] == tokenizer::TokenModel::Pipe);
        lemma_simple(ts, i, c, 0);
        lemma_commands(ts, i + simple_written(c).len() + 1, rest, before.push(c));
        assert(before.push(c) + rest =~= before + cs);
    }
}

/// No parenthesis and no brace stands in a pipeline, and its first token is
/// the first one of its first command.
proof fn lemma_commands_plain(cs: Seq<syntax::SimpleModel>)
    requires
        cs.len() > 0,
        cs[0].args.len() > 0 || cs[0].redirects.len() > 0,
    ensures
        commands_written(cs).len() > 0,
        forall|k: int|
            0 <= k < commands_written(cs).len() ==> {
                let t = #[trigger] commands_written(cs)[k];
                t is Word || t is Redirect || t is Pipe
            },
        cs[0].args.len() > 0 ==> commands_written(cs)[0] == tokenizer::TokenModel::Word(
            cs[0].args[0],
        ),
        cs[0].args.len() == 0 ==> commands_written(cs)[0] is Redirect,
{
    let s = simple_written(cs[0]);
    lemma_commands_tail(cs);
    assert(commands_written(cs)[0] == s[0]);
    if cs[0].args.len() > 0 {
        assert(s[0] == words_written(cs[0].args)[0]);
    } else {
        assert(s[0] == redirects_written(cs[0].redirects)[0]);
    }
}

proof fn lemma_commands_tail(cs: Seq<syntax::SimpleModel>)
    ensures
        forall|k: int|
            0 <= k < commands_written(cs).len() ==> {
                let t = #[trigger] commands_written(cs)[k];
                t is Word || t is Redirect || t is Pipe
            },
    decreases cs.len(),
{
    if cs.len() > 0 {
        let s = simple_written(cs[0]);
        let rest = commands_written(cs.skip(1));
        if cs.len() > 1 {
            lemma_commands_tail(cs.skip(1));
        }
        assert forall|k: int| 0 <= k < commands_written(cs).len() implies {
            let t = #[trigger] commands_written(cs)[k];
            t is Word || t is Redirect || t is Pipe
        } by {
            if k < s.len() {
                assert(commands_written(cs)[k] == s[k]);
                if k < cs[0].args.len() {
                    assert(s[k] == words_written(cs[0].args)[k]);
                } else {
                    assert(s[k] == redirects_written(cs[0].redirects)[k - cs[0].args.len()]);
                }
            } else if k > s.len() {
                assert(commands_written(cs)[k] == rest[k - s.len() - 1]);
            }
        }
    }
}

proof fn lemma_patterns(
    ts: Seq<tokenizer::TokenModel>,
    i: int,
    ps: Seq<Seq<char>>,
    before: Seq<Seq<char>>,
)
    requires
        ps.len() > 0,
        stands_at(ts, i, patterns_written(ps)),
    ensures
        parser::patterns_from(ts, i, before) == Ok::<(Seq<Seq<char>>, int), Seq<char>>(
            (before + ps, i + patterns_written(ps).len()),
        ),
        parser::word_at(ts, i) == Some(ps[0]),
    decreases ps.len(),
{
    if ps.len() == 1 {
        let p = seq![tokenizer::TokenModel::RParen];
        lemma_word_first(ts, i, ps[0], p);
        assert(p[0] == tokenizer::TokenModel::RParen);
        assert(before.push(ps[0]) =~= before + ps);
    } else {
        let pipe = seq![tokenizer::TokenModel::Pipe];
        let rest = patterns_written(ps.skip(1));
        lemma_split(ts, i, one_word(ps[0]) + pipe, rest);
        lemma_word_first(ts, i, ps[0], pipe);
        assert(pipe[0] == tokenizer::TokenModel::Pipe);
        lemma_patterns(ts, i + 2, ps.skip(1), before.push(ps[0]));
        assert(before.push(ps[0]) + ps.skip(1) =~= before + ps);
    }
}

proof fn lemma_loop_words(ts: Seq<tokenizer::TokenModel>, i: int, ws: Seq<Seq<char>>, k: int)
    requires
        0 <= k <= ws.len(),
        stands_at(ts, i, words_written(ws)),
        parser::word_at(ts, i + ws.len()) is None,
        forall|j: int| 0 <= j < ws.len() ==> #[trigger] ws[j] != "do"@,
    ensures
        parser::for_words(ts, i + k, ws.take(k)) == (ws, i + ws.len()),
    decreases ws.len() - k,
{
    if k < ws.len() {
        assert(words_written(ws)[k] == tokenizer::TokenModel::Word(ws[k]));
        assert(ws.take(k).push(ws[k]) =~= ws.take(k + 1));
        lemma_loop_words(ts, i, ws, k + 1);
    } else {
        assert(ws.take(k) =~= ws);
    }
}

// ---------------------------------------------------------------------------
// Reading written programs.
// ---------------------------------------------------------------------------

/// A list of commands ends at `k`.
pub open spec fn ends(ts: Seq<tokenizer::TokenModel>, k: int, c: Closer) -> bool {
    k >= ts.len() || parser::terminator_at(ts, k, c)
}

/// A connector stands at `k`.
pub open spec fn joined_at(ts: Seq<tokenizer::TokenModel>, k: int) -> bool {
    k < ts.len() && (ts[k] is And || ts[k] is Or || ts[k] is Semicolon)
}

/// The words that open a compound command end no list, and differ from each
/// other.
proof fn lemma_openers(c: Closer)
    ensures
        !parser::closes(c, "if"@),
        !parser::closes(c, "for"@),
        !parser::closes(c, "while"@),
        !parser::closes(c, "until"@),
        !parser::closes(c, "case"@),
        "for"@ != "if"@,
        "while"@ != "if"@ && "while"@ != "for"@,
        "until"@ != "if"@ && "until"@ != "for"@ && "until"@ != "while"@,
        "case"@ != "if"@ && "case"@ != "for"@ && "case"@ != "while"@ && "case"@ != "until"@,
        "else"@ != "elif"@ && "fi"@ != "elif"@ && "fi"@ != "else"@,
{
    reveal_strlit("if");
    reveal_strlit("for");
    reveal_strlit("while");
    reveal_strlit("until");
    reveal_strlit("case");
    reveal_strlit("then");
    reveal_strlit("elif");
    reveal_strlit("else");
    reveal_strlit("fi");
    reveal_strlit("do");
    reveal_strlit("done");
    reveal_strlit("esac");
    assert("if"@[0] == 'i' && "fi"@[0] == 'f' && "do"@[0] == 'd' && "for"@.len() == 3);
    assert("while"@[0] == 'w' && "until"@[0] == 'u');
    assert("case"@[0] == 'c' && "then"@[0] == 't' && "elif"@[0] == 'e' && "else"@[0] == 'e');
    assert("done"@[0] == 'd' && "esac"@[0] == 'e');
    assert("elif"@[2] == 'i' && "else"@[2] == 's');
}

/// Where a unit begins, no list ends and no `;` stands.
proof fn lemma_start(ts: Seq<tokenizer::TokenModel>, i: int, u: syntax::UnitModel, c: Closer)
    requires
        stands_at(ts, i, unit_written(u)),
        sound_unit(u),
    ensures
        unit_written(u).len() > 0,
        !parser::terminator_at(ts, i, c),
        !parser::at(ts, i, tokenizer::TokenModel::Semicolon),
{
    lemma_openers(c);
    let p = unit_written(u);
    match u {
        syntax::UnitModel::Pipeline(q) => {
            lemma_commands_plain(q.commands);
            assert(p[0] == commands_written(q.commands)[0]);
            assert(ts[i + 0] == p[0]);
        },
        syntax::UnitModel::Group(jobs) => {
            assert(p[0] == tokenizer::TokenModel::LBrace);
            assert(ts[i + 0] == p[0]);
        },
        syntax::UnitModel::Compound(k) => {
            assert(p == compound_written(k));
            match k {
                syntax::CompoundModel::If(chain) => {
                    assert(p[0] == tokenizer::TokenModel::Word("if"@));
                },
                syntax::CompoundModel::For { var, words, body } => {
                    assert(p[0] == tokenizer::TokenModel::Word("for"@));
                },
                syntax::CompoundModel::While { cond, body, until } => {
                    assert(p[0] == tokenizer::TokenModel::Word(loop_word(until)));
                },
                syntax::CompoundModel::Case { word, arms } => {
                    assert(p[0] == tokenizer::TokenModel::Word("case"@));
                },
                syntax::CompoundModel::FunctionDef { name, body } => {
                    assert(p[0] == tokenizer::TokenModel::Word(name));
                },
            }
            assert(ts[i + 0] == p[0]);
        },
    }
}

proof fn lemma_list(
    ts: Seq<tokenizer::TokenModel>,
    i: int,
    c: Closer,
    jobs: Seq<syntax::JobModel>,
    before: Seq<syntax::JobModel>,
)
    requires
        stands_at(ts, i, list_written(jobs)),
        sound_list(jobs),
        ends(ts, i + list_written(jobs).len(), c),
    ensures
        parser::list_from(ts, i, c, before) == Ok::<(Seq<syntax::JobModel>, int), Seq<char>>(
            (before + jobs, i + list_written(jobs).len()),
        ),
        !parser::at(ts, i, tokenizer::TokenModel::Semicolon),
    decreases jobs, 0nat,
{
    if jobs.len() == 0 {
        assert(before + jobs =~= before);
    } else {
        let u = unit_written(jobs[0].unit);
        let join = seq![connector_written(jobs[0].connector)];
        let rest = jobs.subrange(1, jobs.len() as int);
        lemma_split(ts, i, u + join, list_written(rest));
        lemma_split(ts, i, u, join);
        assert(join[0] == connector_written(jobs[0].connector));
        assert(ts[i + u.len() + 0] == join[0]);
        lemma_start(ts, i, jobs[0].unit, c);
        lemma_unit(ts, i, jobs[0].unit);
        lemma_list(ts, i + u.len() + 1, c, rest, before.push(jobs[0]));
        assert(before.push(jobs[0]) + rest =~= before + jobs);
        let j = i + u.len() + 1;
        assert(parser::skip_semicolons(ts, j) == j);
        assert(parser::connector_at(ts, i + u.len()) == (jobs[0].connector, j));
    }
}

proof fn lemma_list_at(
    ts: Seq<tokenizer::TokenModel>,
    i: int,
    c: Closer,
    jobs: Seq<syntax::JobModel>,
)
    requires
        stands_at(ts, i, list_written(jobs)),
        sound_list(jobs),
        ends(ts, i + list_written(jobs).len(), c),
    ensures
        parser::list_at(ts, i, c) == Ok::<(Seq<syntax::JobModel>, int), Seq<char>>(
            (jobs, i + list_written(jobs).len()),
        ),
    decreases jobs, 1nat,
{
    lemma_list(ts, i, c, jobs, Seq::empty());
    assert(Seq::empty() + jobs =~= jobs);
    assert(parser::skip_semicolons(ts, i) == i);
}

proof fn lemma_unit(ts: Seq<tokenizer::TokenModel>, i: int, u: syntax::UnitModel)
    requires
        stands_at(ts, i, unit_written(u)),
        sound_unit(u),
        joined_at(ts, i + unit_written(u).len()),
    ensures
        parser::unit_at(ts, i) == Ok::<(syntax::UnitModel, int), Seq<char>>(
            (u, i + unit_written(u).len()),
        ),
    decreases u, 0nat,
{
    match u {
        syntax::UnitModel::Pipeline(p) => {
            lemma_written_pipeline(ts, i, p);
        },
        syntax::UnitModel::Group(jobs) => {
            let open = seq![tokenizer::TokenModel::LBrace];
            let close = seq![tokenizer::TokenModel::RBrace];
            lemma_split(ts, i, open + list_written(jobs), close);
            lemma_split(ts, i, open, list_written(jobs));
            assert(open[0] == tokenizer::TokenModel::LBrace);
            assert(close[0] == tokenizer::TokenModel::RBrace);
            assert(ts[i + 0] == open[0]);
            assert(ts[i + 1 + list_written(jobs).len() + 0] == close[0]);
            lemma_list_at(ts, i + 1, Closer::Nothing, jobs);
        },
        syntax::UnitModel::Compound(c) => {
            lemma_compound(ts, i, c);
        },
    }
}

proof fn lemma_written_pipeline(
    ts: Seq<tokenizer::TokenModel>,
    i: int,
    p: syntax::PipelineModel,
)
    requires
        stands_at(ts, i, pipeline_written(p)),
        sound_pipeline(p),
        joined_at(ts, i + pipeline_written(p).len()),
    ensures
        parser::unit_at(ts, i) == Ok::<(syntax::UnitModel, int), Seq<char>>(
            (syntax::UnitModel::Pipeline(p), i + pipeline_written(p).len()),
        ),
{
    let cs = p.commands;
    let w = commands_written(cs);
    let sign = seq![tokenizer::TokenModel::Background];
    lemma_commands_plain(cs);
    if p.background {
        lemma_split(ts, i, w, sign);
        assert(sign[0] == tokenizer::TokenModel::Background);
        assert(ts[i + w.len() + 0] == sign[0]);
    }
    lemma_commands(ts, i, cs, Seq::empty());
    assert(Seq::empty() + cs =~= cs);
    assert(ts[i + 0] == w[0]);
    if w.len() > 1 {
        assert(ts[i + 1] == w[1]);
    }
    assert(p == (syntax::PipelineModel { commands: cs, background: p.background }));
}

/// What stands behind the branches of an `if`.
pub open spec fn if_tail(other: Option<Seq<syntax::JobModel>>) -> Seq<tokenizer::TokenModel> {
    match other {
        None => one_word("fi"@),
        Some(jobs) => one_word("else"@) + (list_written(jobs) + one_word("fi"@)),
    }
}

proof fn lemma_if(ts: Seq<tokenizer::TokenModel>, i: int, chain: syntax::IfModel, k: int)
    requires
        0 <= k < chain.branches.len(),
        sound_branches(chain.branches.subrange(k, chain.branches.len() as int)),
        chain.else_body matches Some(other) ==> sound_list(other),
        stands_at(
            ts,
            i,
            branches_written(chain.branches.subrange(k, chain.branches.len() as int)) + if_tail(
                chain.else_body,
            ),
        ),
    ensures
        parser::if_from(ts, i, chain.branches.take(k)) == Ok::<(syntax::IfModel, int), Seq<char>>(
            (
                chain,
                i + branches_written(
                    chain.branches.subrange(k, chain.branches.len() as int),
                ).len() + if_tail(chain.else_body).len(),
            ),
        ),
    decreases chain, (chain.branches.len() - k) as nat,
{
    let n = chain.branches.len() as int;
    let bs = chain.branches.subrange(k, n);
    let cond = chain.branches[k].0;
    let body = chain.branches[k].1;
    assert(bs[0] == chain.branches[k]);
    let first = list_written(cond) + one_word("then"@) + list_written(body);
    let tail = if_tail(chain.else_body);
    let rest = bs.subrange(1, bs.len() as int);
    let behind = if bs.len() == 1 {
        tail
    } else {
        one_word("elif"@) + (branches_written(rest) + tail)
    };
    assert(branches_written(bs) + tail =~= first + behind);
    lemma_openers(Closer::Branch);
    lemma_split(ts, i, first, behind);
    lemma_split(ts, i, list_written(cond) + one_word("then"@), list_written(body));
    lemma_split(ts, i, list_written(cond), one_word("then"@));
    let k1 = i + list_written(cond).len();
    assert(one_word("then"@)[0] == tokenizer::TokenModel::Word("then"@));
    assert(ts[k1 + 0] == one_word("then"@)[0]);
    lemma_list_at(ts, i, Closer::Then, cond);
    let k2 = k1 + 1;
    let k3 = k2 + list_written(body).len();
    assert(k3 == i + first.len());
    if bs.len() == 1 {
        match chain.else_body {
            None => {
                assert(tail[0] == tokenizer::TokenModel::Word("fi"@));
                assert(ts[k3 + 0] == tail[0]);
                lemma_list_at(ts, k2, Closer::Branch, body);
            },
            Some(other) => {
                lemma_word_first(ts, k3, "else"@, list_written(other) + one_word("fi"@));
                lemma_list_at(ts, k2, Closer::Branch, body);
                lemma_split(ts, k3 + 1, list_written(other), one_word("fi"@));
                let k4 = k3 + 1 + list_written(other).len();
                assert(one_word("fi"@)[0] == tokenizer::TokenModel::Word("fi"@));
                assert(ts[k4 + 0] == one_word("fi"@)[0]);
                lemma_list_at(ts, k3 + 1, Closer::Fi, other);
            },
        }
        assert(chain.branches.take(k).push((cond, body)) =~= chain.branches);
        assert(chain == (syntax::IfModel {
            branches: chain.branches,
            else_body: chain.else_body,
        }));
    } else {
        lemma_word_first(ts, k3, "elif"@, branches_written(rest) + tail);
        lemma_list_at(ts, k2, Closer::Branch, body);
        assert(rest =~= chain.branches.subrange(k + 1, n));
        lemma_if(ts, k3 + 1, chain, k + 1);
        assert(chain.branches.take(k).push((cond, body)) =~= chain.branches.take(k + 1));
    }
}

proof fn lemma_loop_body(ts: Seq<tokenizer::TokenModel>, i: int, body: Seq<syntax::JobModel>)
    requires
        stands_at(ts, i, one_word("do"@) + (list_written(body) + one_word("done"@))),
        sound_list(body),
    ensures
        parser::loop_body_at(ts, i) == Ok::<(Seq<syntax::JobModel>, int), Seq<char>>(
            (body, i + list_written(body).len() + 2),
        ),
    decreases body, 2nat,
{
    lemma_word_first(ts, i, "do"@, list_written(body) + one_word("done"@));
    lemma_split(ts, i + 1, list_written(body), one_word("done"@));
    let k = i + 1 + list_written(body).len();
    assert(one_word("done"@)[0] == tokenizer::TokenModel::Word("done"@));
    assert(ts[k + 0] == one_word("done"@)[0]);
    lemma_list_at(ts, i + 1, Closer::Done, body);
}

proof fn lemma_arms(
    ts: Seq<tokenizer::TokenModel>,
    i: int,
    arms: Seq<syntax::CaseArmModel>,
    before: Seq<syntax::CaseArmModel>,
)
    requires
        stands_at(ts, i, arms_written(arms) + one_word("esac"@)),
        sound_arms(arms),
    ensures
        parser::arms_from(ts, i, before) == Ok::<(Seq<syntax::CaseArmModel>, int), Seq<char>>(
            (before + arms, i + arms_written(arms).len() + 1),
        ),
        parser::word_at(ts, i) is Some,
    decreases arms, 0nat,
{
    if arms.len() == 0 {
        assert(arms_written(arms) + one_word("esac"@) =~= one_word("esac"@) + Seq::empty());
        lemma_word_first(ts, i, "esac"@, Seq::empty());
        assert(before + arms =~= before);
    } else {
        let arm = arms[0];
        let rest = arms.subrange(1, arms.len() as int);
        let ps = patterns_written(arm.patterns);
        let end = seq![tokenizer::TokenModel::CaseEnd];
        let behind = arms_written(rest) + one_word("esac"@);
        assert(arms_written(arms) + one_word("esac"@) =~= ps + (list_written(arm.body) + (end
            + behind)));
        lemma_split(ts, i, ps, list_written(arm.body) + (end + behind));
        lemma_patterns(ts, i, arm.patterns, Seq::empty());
        assert(Seq::empty() + arm.patterns =~= arm.patterns);
        let k1 = i + ps.len();
        lemma_split(ts, k1, list_written(arm.body), end + behind);
        let k2 = k1 + list_written(arm.body).len();
        lemma_split(ts, k2, end, behind);
        assert(end[0] == tokenizer::TokenModel::CaseEnd);
        assert(ts[k2 + 0] == end[0]);
        lemma_list_at(ts, k1, Closer::Esac, arm.body);
        lemma_arms(ts, k2 + 1, rest, before.push(arm));
        assert(before.push(arm) + rest =~= before + arms);
        assert(arm == (syntax::CaseArmModel { patterns: arm.patterns, body: arm.body }));
    }
}

proof fn lemma_written_if(ts: Seq<tokenizer::TokenModel>, i: int, c: syntax::CompoundModel)
    requires
        stands_at(ts, i, compound_written(c)),
        sound_compound(c),
        c is If,
    ensures
        parser::unit_at(ts, i) == Ok::<(syntax::UnitModel, int), Seq<char>>(
            (syntax::UnitModel::Compound(c), i + compound_written(c).len()),
        ),
    decreases c, 0nat,
{
    let p = compound_written(c);
    lemma_openers(Closer::Nothing);
    if let syntax::CompoundModel::If(chain) = c {
        let behind = branches_written(chain.branches) + if_tail(chain.else_body);
        assert(p =~= one_word("if"@) + behind);
        lemma_word_first(ts, i, "if"@, behind);
        assert(chain.branches.subrange(0, chain.branches.len() as int) =~= chain.branches);
        assert(chain.branches.take(0) =~= Seq::empty());
        lemma_if(ts, i + 1, chain, 0);
    }
}

proof fn lemma_written_for(ts: Seq<tokenizer::TokenModel>, i: int, c: syntax::CompoundModel)
    requires
        stands_at(ts, i, compound_written(c)),
        sound_compound(c),
        c is For,
    ensures
        parser::unit_at(ts, i) == Ok::<(syntax::UnitModel, int), Seq<char>>(
            (syntax::UnitModel::Compound(c), i + compound_written(c).len()),
        ),
    decreases c, 0nat,
{
    let p = compound_written(c);
    lemma_openers(Closer::Nothing);
    if let syntax::CompoundModel::For { var, words, body } = c {
        let run = one_word("do"@) + (list_written(body) + one_word("done"@));
        let sign = seq![tokenizer::TokenModel::Semicolon];
        let listed = words_written(words) + (sign + run);
        assert(p =~= one_word("for"@) + (one_word(var) + (one_word("in"@) + listed)));
        lemma_word_first(ts, i, "for"@, one_word(var) + (one_word("in"@) + listed));
        lemma_word_first(ts, i + 1, var, one_word("in"@) + listed);
        lemma_word_first(ts, i + 2, "in"@, listed);
        lemma_split(ts, i + 3, words_written(words), sign + run);
        let k = i + 3 + words.len();
        lemma_split(ts, k, sign, run);
        assert(sign[0] == tokenizer::TokenModel::Semicolon);
        assert(ts[k + 0] == sign[0]);
        assert(words.take(0) =~= Seq::empty());
        lemma_loop_words(ts, i + 3, words, 0);
        lemma_word_first(ts, k + 1, "do"@, list_written(body) + one_word("done"@));
        reveal_with_fuel(parser::skip_semicolons, 2);
        lemma_loop_body(ts, k + 1, body);
    }
}

proof fn lemma_written_while(ts: Seq<tokenizer::TokenModel>, i: int, c: syntax::CompoundModel)
    requires
        stands_at(ts, i, compound_written(c)),
        sound_compound(c),
        c is While,
    ensures
        parser::unit_at(ts, i) == Ok::<(syntax::UnitModel, int), Seq<char>>(
            (syntax::UnitModel::Compound(c), i + compound_written(c).len()),
        ),
    decreases c, 0nat,
{
    let p = compound_written(c);
    lemma_openers(Closer::Nothing);
    if let syntax::CompoundModel::While { cond, body, until } = c {
        let run = one_word("do"@) + (list_written(body) + one_word("done"@));
        assert(p =~= one_word(loop_word(until)) + (list_written(cond) + run));
        lemma_word_first(ts, i, loop_word(until), list_written(cond) + run);
        lemma_split(ts, i + 1, list_written(cond), run);
        let k = i + 1 + list_written(cond).len();
        lemma_word_first(ts, k, "do"@, list_written(body) + one_word("done"@));
        lemma_list_at(ts, i + 1, Closer::Do, cond);
        lemma_loop_body(ts, k, body);
    }
}

proof fn lemma_written_case(ts: Seq<tokenizer::TokenModel>, i: int, c: syntax::CompoundModel)
    requires
        stands_at(ts, i, compound_written(c)),
        sound_compound(c),
        c is Case,
    ensures
        parser::unit_at(ts, i) == Ok::<(syntax::UnitModel, int), Seq<char>>(
            (syntax::UnitModel::Compound(c), i + compound_written(c).len()),
        ),
    decreases c, 0nat,
{
    let p = compound_written(c);
    lemma_openers(Closer::Nothing);
    if let syntax::CompoundModel::Case { word, arms } = c {
        let behind = arms_written(arms) + one_word("esac"@);
        assert(p =~= one_word("case"@) + (one_word(word) + (one_word("in"@) + behind)));
        lemma_word_first(ts, i, "case"@, one_word(word) + (one_word("in"@) + behind));
        lemma_word_first(ts, i + 1, word, one_word("in"@) + behind);
        lemma_word_first(ts, i + 2, "in"@, behind);
        lemma_arms(ts, i + 3, arms, Seq::empty());
        assert(Seq::empty() + arms =~= arms);
        assert(parser::skip_semicolons(ts, i + 3) == i + 3);
    }
}

proof fn lemma_written_function(ts: Seq<tokenizer::TokenModel>, i: int, c: syntax::CompoundModel)
    requires
        stands_at(ts, i, compound_written(c)),
        sound_compound(c),
        c is FunctionDef,
    ensures
        parser::unit_at(ts, i) == Ok::<(syntax::UnitModel, int), Seq<char>>(
            (syntax::UnitModel::Compound(c), i + compound_written(c).len()),
        ),
    decreases c, 0nat,
{
    let p = compound_written(c);
    lemma_openers(Closer::Nothing);
    if let syntax::CompoundModel::FunctionDef { name, body } = c {
        let signs = seq![
            tokenizer::TokenModel::LParen,
            tokenizer::TokenModel::RParen,
            tokenizer::TokenModel::LBrace,
        ];
        let close = seq![tokenizer::TokenModel::RBrace];
        assert(p =~= one_word(name) + (signs + (list_written(body) + close)));
        lemma_word_first(ts, i, name, signs + (list_written(body) + close));
        lemma_split(ts, i + 1, signs, list_written(body) + close);
        assert(signs[0] == tokenizer::TokenModel::LParen);
        assert(signs[1] == tokenizer::TokenModel::RParen);
        assert(signs[2] == tokenizer::TokenModel::LBrace);
        assert(ts[i + 1 + 0] == signs[0]);
        assert(ts[i + 1 + 1] == signs[1]);
        assert(ts[i + 1 + 2] == signs[2]);
        lemma_split(ts, i + 4, list_written(body), close);
        assert(close[0] == tokenizer::TokenModel::RBrace);
        assert(ts[i + 4 + list_written(body).len() + 0] == close[0]);
        lemma_list_at(ts, i + 4, Closer::Nothing, body);
        assert(parser::group_at(ts, i + 3) == Ok::<(Seq<syntax::JobModel>, int), Seq<char>>(
            (body, i + 5 + list_written(body).len()),
        ));
    }
}

proof fn lemma_compound(ts: Seq<tokenizer::TokenModel>, i: int, c: syntax::CompoundModel)
    requires
        stands_at(ts, i, compound_written(c)),
        sound_compound(c),
    ensures
        parser::unit_at(ts, i) == Ok::<(syntax::UnitModel, int), Seq<char>>(
            (syntax::UnitModel::Compound(c), i + compound_written(c).len()),
        ),
    decreases c, 1nat,
{
    match c {
        syntax::CompoundModel::If(_) => {
            lemma_written_if(ts, i, c);
        },
        syntax::CompoundModel::For { .. } => {
            lemma_written_for(ts, i, c);
        },
        syntax::CompoundModel::While { .. } => {
            lemma_written_while(ts, i, c);
        },
        syntax::CompoundModel::Case { .. } => {
            lemma_written_case(ts, i, c);
        },
        syntax::CompoundModel::FunctionDef { .. } => {
            lemma_written_function(ts, i, c);
        },
    }
}

/// The parser reads every program back: whatever pipelines, groups, functions,
/// conditions, loops and cases it is made of, its tokens parse to the program
/// itself.
pub proof fn law_programs_read_back(jobs: Seq<syntax::JobModel>)
    requires
        sound_list(jobs),
    ensures
        parser::jobs_of(list_written(jobs)) == Ok::<Seq<syntax::JobModel>, Seq<char>>(jobs),
{
    lemma_list_at(list_written(jobs), 0, Closer::Nothing, jobs);
}

// ---------------------------------------------------------------------------
// What is refused.
// ---------------------------------------------------------------------------

/// A text that the parser refuses, with this message.
pub open spec fn refused(ts: Seq<tokenizer::TokenModel>, message: Seq<char>) -> bool {
    parser::jobs_of(ts) == Err::<Seq<syntax::JobModel>, Seq<char>>(message)
}

proof fn lemma_bad_unit(ts: Seq<tokenizer::TokenModel>, m: Seq<char>)
    requires
        ts.len() > 0,
        !parser::at(ts, 0, tokenizer::TokenModel::Semicolon),
        !parser::terminator_at(ts, 0, Closer::Nothing),
        parser::unit_at(ts, 0) == Err::<(syntax::UnitModel, int), Seq<char>>(m),
    ensures
        refused(ts, m),
{
    assert(parser::skip_semicolons(ts, 0) == 0);
    assert(parser::list_from(ts, 0, Closer::Nothing, Seq::empty()) == Err::<
        (Seq<syntax::JobModel>, int),
        Seq<char>,
    >(m));
}

/// Nothing of a text is passed over: what closes something that nothing opened,
/// behind a program, makes the whole text refused.
pub proof fn law_stray_closers(jobs: Seq<syntax::JobModel>, t: tokenizer::TokenModel)
    requires
        sound_list(jobs),
        t is RBrace || t is CaseEnd,
    ensures
        refused(
            list_written(jobs).push(t),
            "unexpected token at position "@ + text::decimal(list_written(jobs).len()) + ": Some("@
                + (if t is RBrace {
                "RBrace"@
            } else {
                "CaseEnd"@
            }) + ")"@,
        ),
{
    let ts = list_written(jobs).push(t);
    let n = list_written(jobs).len() as int;
    assert(ts[n] == t);
    assert(ts.subrange(0, n) =~= list_written(jobs));
    lemma_list_at(ts, 0, Closer::Nothing, jobs);
    reveal_strlit(": ");
    reveal_strlit("Some(");
    reveal_strlit(": Some(");
    assert(": Some("@ =~= ": "@ + "Some("@);
    let name = if t is RBrace {
        "RBrace"@
    } else {
        "CaseEnd"@
    };
    let front = "unexpected token at position "@ + text::decimal(n as nat);
    assert(front + ": "@ + ("Some("@ + name + ")"@) =~= front + ": Some("@ + name + ")"@);
}

/// No command begins with an operator or a parenthesis.
pub proof fn law_commands_begin_with_words(
    t: tokenizer::TokenModel,
    rest: Seq<tokenizer::TokenModel>,
)
    requires
        t is Pipe || t is And || t is Or || t is Background || t is LParen || t is RParen,
    ensures
        refused(seq![t] + rest, "expected a command"@),
{
    let ts = seq![t] + rest;
    assert(ts[0] == t);
    assert(parser::simple_from(
        ts,
        0,
        syntax::SimpleModel { args: Seq::empty(), redirects: Seq::empty() },
    ).1 == 0);
    lemma_bad_unit(ts, "expected a command"@);
}

/// A `|` needs a command behind it.
pub proof fn law_pipes_need_commands(c: syntax::SimpleModel)
    requires
        c.args.len() > 0,
        !reserved(c.args[0]),
    ensures
        refused(
            simple_written(c).push(tokenizer::TokenModel::Pipe),
            "expected a command"@,
        ),
{
    let w = simple_written(c);
    let ts = w.push(tokenizer::TokenModel::Pipe);
    let n = (c.args.len() + c.redirects.len()) as int;
    assert(w.len() == n);
    assert(ts.subrange(0, n) =~= w);
    assert(ts[n] == tokenizer::TokenModel::Pipe);
    assert(breaks(ts, n));
    lemma_simple(ts, 0, c, 0);
    assert(c.args.take(0) =~= Seq::empty());
    assert(c.redirects.take(0) =~= Seq::empty());
    assert(ts[0] == w[0] && w[0] == tokenizer::TokenModel::Word(c.args[0]));
    assert(parser::simple_at(ts, 0) == Ok::<(syntax::SimpleModel, int), Seq<char>>((c, n)));
    assert(parser::simple_at(ts, n + 1) is Err);
    assert(parser::pipeline_from(ts, n + 1, Seq::empty().push(c)) == Err::<
        (syntax::PipelineModel, int),
        Seq<char>,
    >("expected a command"@));
    assert(n > 1 ==> ts[1] == w[1] && !(w[1] is LParen)) by {
        if 1 < c.args.len() {
            assert(w[1] == tokenizer::TokenModel::Word(c.args[1]));
        } else if n > 1 {
            assert(w[1] == redirects_written(c.redirects)[0]);
        }
    }
    lemma_bad_unit(ts, "expected a command"@);
}

proof fn lemma_opened(ts: Seq<tokenizer::TokenModel>, w: Seq<char>, jobs: Seq<syntax::JobModel>, rest: Seq<tokenizer::TokenModel>)
    requires
        ts == one_word(w) + list_written(jobs) + rest,
    ensures
        parser::at_word(ts, 0, w),
        stands_at(ts, 1, list_written(jobs)),
        stands_at(ts, 0, one_word(w)),
{
    assert(ts[0] == tokenizer::TokenModel::Word(w));
    assert(ts.subrange(1, 1 + list_written(jobs).len() as int) =~= list_written(jobs));
}

/// The message where the text ends before a word that closes something.
pub open spec fn missing(w: Seq<char>) -> Seq<char> {
    "expected '"@ + w + "', found None"@
}

proof fn lemma_missing(ts: Seq<tokenizer::TokenModel>, w: Seq<char>)
    ensures
        parser::word_behind(ts, ts.len() as int, w) == Err::<int, Seq<char>>(missing(w)),
{
    reveal_strlit("', found ");
    reveal_strlit("None");
    reveal_strlit("', found None");
    assert("', found None"@ =~= "', found "@ + "None"@);
    assert("expected '"@ + w + "', found "@ + "None"@ =~= missing(w));
}

/// What is opened must be closed: a group needs its brace, an `if` its `then`
/// and its `fi`, a loop its `do` and its `done`.
pub proof fn law_unclosed_commands(
    cond: Seq<syntax::JobModel>,
    body: Seq<syntax::JobModel>,
    until: bool,
)
    requires
        sound_list(cond),
        sound_list(body),
    ensures
        refused(
            seq![tokenizer::TokenModel::LBrace] + list_written(body),
            "expected '}' to close the group"@,
        ),
        refused(one_word("if"@) + list_written(cond), missing("then"@)),
        refused(
            one_word("if"@) + list_written(cond) + one_word("then"@) + list_written(body),
            missing("fi"@),
        ),
        refused(one_word(loop_word(until)) + list_written(cond), missing("do"@)),
        refused(
            one_word(loop_word(until)) + list_written(cond) + one_word("do"@) + list_written(body),
            missing("done"@),
        ),
{
    lemma_unclosed_group(body);
    lemma_unclosed_if(cond, body);
    lemma_unclosed_loop(cond, until);
    lemma_endless_loop(cond, body, until);
}

proof fn lemma_unclosed_group(body: Seq<syntax::JobModel>)
    requires
        sound_list(body),
    ensures
        refused(
            seq![tokenizer::TokenModel::LBrace] + list_written(body),
            "expected '}' to close the group"@,
        ),
{
    let ts = seq![tokenizer::TokenModel::LBrace] + list_written(body);
    assert(ts[0] == tokenizer::TokenModel::LBrace);
    assert(ts.subrange(1, ts.len() as int) =~= list_written(body));
    lemma_list_at(ts, 1, Closer::Nothing, body);
    lemma_bad_unit(ts, "expected '}' to close the group"@);
}

proof fn lemma_unclosed_if(cond: Seq<syntax::JobModel>, body: Seq<syntax::JobModel>)
    requires
        sound_list(cond),
        sound_list(body),
    ensures
        refused(one_word("if"@) + list_written(cond), missing("then"@)),
        refused(
            one_word("if"@) + list_written(cond) + one_word("then"@) + list_written(body),
            missing("fi"@),
        ),
{
    lemma_openers(Closer::Nothing);
    let none = Seq::<tokenizer::TokenModel>::empty();
    let a = one_word("if"@) + list_written(cond);
    assert(a =~= one_word("if"@) + list_written(cond) + none);
    lemma_opened(a, "if"@, cond, none);
    lemma_list_at(a, 1, Closer::Then, cond);
    lemma_missing(a, "then"@);
    lemma_bad_unit(a, missing("then"@));
    let rest = one_word("then"@) + list_written(body);
    let b = one_word("if"@) + list_written(cond) + one_word("then"@) + list_written(body);
    assert(b =~= one_word("if"@) + list_written(cond) + rest);
    lemma_opened(b, "if"@, cond, rest);
    let k = 1 + list_written(cond).len() as int;
    assert(b[k] == rest[0] && rest[0] == tokenizer::TokenModel::Word("then"@));
    lemma_list_at(b, 1, Closer::Then, cond);
    assert(b.subrange(k + 1, b.len() as int) =~= list_written(body));
    lemma_list_at(b, k + 1, Closer::Branch, body);
    lemma_missing(b, "fi"@);
    assert(parser::if_from(b, 1, Seq::empty()) == Err::<(syntax::IfModel, int), Seq<char>>(
        missing("fi"@),
    ));
    lemma_bad_unit(b, missing("fi"@));
}

proof fn lemma_unclosed_loop(
    cond: Seq<syntax::JobModel>,
    until: bool,
)
    requires
        sound_list(cond),
    ensures
        refused(one_word(loop_word(until)) + list_written(cond), missing("do"@)),
{
    lemma_openers(Closer::Nothing);
    let none = Seq::<tokenizer::TokenModel>::empty();
    let w = loop_word(until);
    let a = one_word(w) + list_written(cond);
    assert(a =~= one_word(w) + list_written(cond) + none);
    lemma_opened(a, w, cond, none);
    lemma_list_at(a, 1, Closer::Do, cond);
    lemma_missing(a, "do"@);
    assert(parser::loop_body_at(a, a.len() as int) == Err::<
        (Seq<syntax::JobModel>, int),
        Seq<char>,
    >(missing("do"@)));
    assert(parser::while_at(a, 1, until) == Err::<(syntax::CompoundModel, int), Seq<char>>(
        missing("do"@),
    ));
    lemma_bad_unit(a, missing("do"@));
}

proof fn lemma_endless_loop(
    cond: Seq<syntax::JobModel>,
    body: Seq<syntax::JobModel>,
    until: bool,
)
    requires
        sound_list(cond),
        sound_list(body),
    ensures
        refused(
            one_word(loop_word(until)) + list_written(cond) + one_word("do"@) + list_written(body),
            missing("done"@),
        ),
{
    lemma_openers(Closer::Nothing);
    let w = loop_word(until);
    let rest = one_word("do"@) + list_written(body);
    let b = one_word(w) + list_written(cond) + one_word("do"@) + list_written(body);
    assert(b =~= one_word(w) + list_written(cond) + rest);
    lemma_opened(b, w, cond, rest);
    let k = 1 + list_written(cond).len() as int;
    assert(b[k] == rest[0] && rest[0] == tokenizer::TokenModel::Word("do"@));
    lemma_list_at(b, 1, Closer::Do, cond);
    assert(b.subrange(k + 1, b.len() as int) =~= list_written(body));
    lemma_list_at(b, k + 1, Closer::Done, body);
    lemma_missing(b, "done"@);
    assert(parser::loop_body_at(b, k) == Err::<(Seq<syntax::JobModel>, int), Seq<char>>(
        missing("done"@),
    ));
    assert(parser::while_at(b, 1, until) == Err::<(syntax::CompoundModel, int), Seq<char>>(
        missing("done"@),
    ));
    lemma_bad_unit(b, missing("done"@));
}

/// A token of a simple command.
pub open spec fn plain_token(t: tokenizer::TokenModel) -> bool {
    t is Word || t is Redirect
}

proof fn lemma_simple_push(
    ts: Seq<tokenizer::TokenModel>,
    t: tokenizer::TokenModel,
    i: int,
    c: syntax::SimpleModel,
)
    requires
        0 <= i <= ts.len(),
        forall|k: int| 0 <= k < ts.len() ==> plain_token(#[trigger] ts[k]),
        plain_token(t),
    ensures
        ({
            let before = parser::simple_from(ts, i, c);
            let after = parser::simple_from(ts.push(t), i, c);
            &&& before.1 == ts.len()
            &&& after.1 == ts.len() + 1
            &&& t matches tokenizer::TokenModel::Word(w) ==> after.0 == (syntax::SimpleModel {
                args: before.0.args.push(w),
                redirects: before.0.redirects,
            })
            &&& t matches tokenizer::TokenModel::Redirect(kind, target) ==> after.0
                == (syntax::SimpleModel {
                args: before.0.args,
                redirects: before.0.redirects.push(syntax::RedirectModel { kind, target }),
            })
        }),
    decreases ts.len() - i,
{
    let more = ts.push(t);
    reveal_with_fuel(parser::simple_from, 2);
    if i < ts.len() {
        assert(more[i] == ts[i]);
        assert(plain_token(ts[i]));
        match ts[i] {
            tokenizer::TokenModel::Word(w) => {
                lemma_simple_push(
                    ts,
                    t,
                    i + 1,
                    syntax::SimpleModel { args: c.args.push(w), redirects: c.redirects },
                );
            },
            tokenizer::TokenModel::Redirect(kind, target) => {
                lemma_simple_push(
                    ts,
                    t,
                    i + 1,
                    syntax::SimpleModel {
                        args: c.args,
                        redirects: c.redirects.push(syntax::RedirectModel { kind, target }),
                    },
                );
            },
            _ => {},
        }
    } else {
        assert(more[i] == t);
    }
}

/// Words and redirections of a command may stand in any order: each word is an
/// argument and each redirection a redirection, in the order in which they are
/// written.
pub proof fn law_simple_commands(ts: Seq<tokenizer::TokenModel>, t: tokenizer::TokenModel)
    requires
        ts.len() > 0,
        forall|k: int| 0 <= k < ts.len() ==> plain_token(#[trigger] ts[k]),
        plain_token(t),
    ensures
        parser::simple_at(ts, 0) matches Ok((before, k)) && parser::simple_at(
            ts.push(t),
            0,
        ) matches Ok((after, j)) && {
            &&& k == ts.len()
            &&& j == ts.len() + 1
            &&& t matches tokenizer::TokenModel::Word(w) ==> after.args == before.args.push(w)
                && after.redirects == before.redirects
            &&& t matches tokenizer::TokenModel::Redirect(kind, target) ==> after.args
                == before.args && after.redirects == before.redirects.push(
                syntax::RedirectModel { kind, target },
            )
        },
{
    let none = syntax::SimpleModel { args: Seq::empty(), redirects: Seq::empty() };
    lemma_simple_push(ts, t, 0, none);
    let shorter = ts.drop_last();
    assert forall|k: int| 0 <= k < shorter.len() implies plain_token(#[trigger] shorter[k]) by {
        assert(shorter[k] == ts[k]);
    }
    assert(shorter.push(ts.last()) =~= ts);
    assert(plain_token(ts[ts.len() - 1]));
    lemma_simple_push(shorter, ts.last(), 0, none);
}

} // verus!
