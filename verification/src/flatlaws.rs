//! The law of flat programs: a list of pipelines keeps every word, every
//! redirection, every `|`, every `&` and every connector of its tokens.

use crate::parser;
use crate::parser::{Closer, Connector};
use crate::syntax;
use crate::tokenizer;
use vstd::prelude::*;

verus! {

// ---------------------------------------------------------------------------
// What tokens hold.
// ---------------------------------------------------------------------------

/// A word that begins a compound command.
pub open spec fn opener(w: Seq<char>) -> bool {
    w == "if"@ || w == "for"@ || w == "while"@ || w == "until"@ || w == "case"@
}

/// A token of a flat program: no parenthesis, brace or `;;`, and no word that
/// begins a compound command.
pub open spec fn flat_token(t: tokenizer::TokenModel) -> bool {
    match t {
        tokenizer::TokenModel::Word(w) => !opener(w),
        tokenizer::TokenModel::Redirect(_, _) => true,
        tokenizer::TokenModel::Pipe => true,
        tokenizer::TokenModel::And => true,
        tokenizer::TokenModel::Or => true,
        tokenizer::TokenModel::Semicolon => true,
        tokenizer::TokenModel::Background => true,
        _ => false,
    }
}

/// Every token is one of a flat program.
pub open spec fn flat(ts: Seq<tokenizer::TokenModel>) -> bool {
    forall|k: int| 0 <= k < ts.len() ==> flat_token(#[trigger] ts[k])
}

/// The texts of the words among the first `k` tokens, in order.
pub open spec fn words_before(ts: Seq<tokenizer::TokenModel>, k: int) -> Seq<Seq<char>>
    decreases k,
{
    if k <= 0 {
        Seq::empty()
    } else {
        match ts[k - 1] {
            tokenizer::TokenModel::Word(w) => words_before(ts, k - 1).push(w),
            _ => words_before(ts, k - 1),
        }
    }
}

/// The redirections among the first `k` tokens, in order.
pub open spec fn redirects_before(ts: Seq<tokenizer::TokenModel>, k: int) -> Seq<
    syntax::RedirectModel,
>
    decreases k,
{
    if k <= 0 {
        Seq::empty()
    } else {
        match ts[k - 1] {
            tokenizer::TokenModel::Redirect(kind, target) => redirects_before(ts, k - 1).push(
                syntax::RedirectModel { kind, target },
            ),
            _ => redirects_before(ts, k - 1),
        }
    }
}

/// How often a token occurs among the first `k`.
pub open spec fn count_before(
    ts: Seq<tokenizer::TokenModel>,
    t: tokenizer::TokenModel,
    k: int,
) -> int
    decreases k,
{
    if k <= 0 {
        0
    } else {
        count_before(ts, t, k - 1) + if ts[k - 1] == t {
            1int
        } else {
            0int
        }
    }
}

/// The texts of the words, in order.
pub open spec fn words_of(ts: Seq<tokenizer::TokenModel>) -> Seq<Seq<char>> {
    words_before(ts, ts.len() as int)
}

/// The redirections, in order.
pub open spec fn redirects_of(ts: Seq<tokenizer::TokenModel>) -> Seq<syntax::RedirectModel> {
    redirects_before(ts, ts.len() as int)
}

/// How often a token occurs.
pub open spec fn count_of(ts: Seq<tokenizer::TokenModel>, t: tokenizer::TokenModel) -> int {
    count_before(ts, t, ts.len() as int)
}

// ---------------------------------------------------------------------------
// What jobs hold.
// ---------------------------------------------------------------------------

/// The arguments of the commands, in order.
pub open spec fn args_of(cs: Seq<syntax::SimpleModel>) -> Seq<Seq<char>>
    decreases cs.len(),
{
    if cs.len() == 0 {
        Seq::empty()
    } else {
        args_of(cs.drop_last()) + cs.last().args
    }
}

/// The redirections of the commands, in order.
pub open spec fn targets_of(cs: Seq<syntax::SimpleModel>) -> Seq<syntax::RedirectModel>
    decreases cs.len(),
{
    if cs.len() == 0 {
        Seq::empty()
    } else {
        targets_of(cs.drop_last()) + cs.last().redirects
    }
}

/// The commands of a job that is a pipeline.
pub open spec fn commands_of(job: syntax::JobModel) -> Seq<syntax::SimpleModel> {
    match job.unit {
        syntax::UnitModel::Pipeline(p) => p.commands,
        _ => Seq::empty(),
    }
}

/// The arguments of all commands of the jobs, in order.
pub open spec fn all_args(jobs: Seq<syntax::JobModel>) -> Seq<Seq<char>>
    decreases jobs.len(),
{
    if jobs.len() == 0 {
        Seq::empty()
    } else {
        all_args(jobs.drop_last()) + args_of(commands_of(jobs.last()))
    }
}

/// The redirections of all commands of the jobs, in order.
pub open spec fn all_redirects(jobs: Seq<syntax::JobModel>) -> Seq<syntax::RedirectModel>
    decreases jobs.len(),
{
    if jobs.len() == 0 {
        Seq::empty()
    } else {
        all_redirects(jobs.drop_last()) + targets_of(commands_of(jobs.last()))
    }
}

/// How many commands stand behind another one in their pipeline.
pub open spec fn all_pipes(jobs: Seq<syntax::JobModel>) -> int
    decreases jobs.len(),
{
    if jobs.len() == 0 {
        0
    } else {
        all_pipes(jobs.drop_last()) + commands_of(jobs.last()).len() - 1
    }
}

/// A job is a pipeline in the background.
pub open spec fn in_background(job: syntax::JobModel) -> bool {
    match job.unit {
        syntax::UnitModel::Pipeline(p) => p.background,
        _ => false,
    }
}

/// How many jobs run in the background.
pub open spec fn all_background(jobs: Seq<syntax::JobModel>) -> int
    decreases jobs.len(),
{
    if jobs.len() == 0 {
        0
    } else {
        all_background(jobs.drop_last()) + if in_background(jobs.last()) {
            1int
        } else {
            0int
        }
    }
}

/// How many jobs the connector follows.
pub open spec fn all_connected(jobs: Seq<syntax::JobModel>, c: Connector) -> int
    decreases jobs.len(),
{
    if jobs.len() == 0 {
        0
    } else {
        all_connected(jobs.drop_last(), c) + if jobs.last().connector == c {
            1int
        } else {
            0int
        }
    }
}

/// A command has an argument or a redirection.
pub open spec fn proper(c: syntax::SimpleModel) -> bool {
    c.args.len() > 0 || c.redirects.len() > 0
}

/// A job is a pipeline of at least one command, and none of them is empty.
pub open spec fn proper_job(job: syntax::JobModel) -> bool {
    &&& job.unit is Pipeline
    &&& commands_of(job).len() > 0
    &&& forall|k: int| 0 <= k < commands_of(job).len() ==> proper(#[trigger] commands_of(job)[k])
}

// ---------------------------------------------------------------------------
// Reading.
// ---------------------------------------------------------------------------

/// The counts of the tokens that separate are the same before `i` and `k`.
spec fn same_counts(ts: Seq<tokenizer::TokenModel>, i: int, k: int) -> bool {
    &&& count_before(ts, tokenizer::TokenModel::Pipe, k) == count_before(
        ts,
        tokenizer::TokenModel::Pipe,
        i,
    )
    &&& count_before(ts, tokenizer::TokenModel::Background, k) == count_before(
        ts,
        tokenizer::TokenModel::Background,
        i,
    )
    &&& count_before(ts, tokenizer::TokenModel::And, k) == count_before(
        ts,
        tokenizer::TokenModel::And,
        i,
    )
    &&& count_before(ts, tokenizer::TokenModel::Or, k) == count_before(
        ts,
        tokenizer::TokenModel::Or,
        i,
    )
}

/// A simple command takes the words and redirections that it reads.
proof fn lemma_simple(
    ts: Seq<tokenizer::TokenModel>,
    i: int,
    c: syntax::SimpleModel,
    words: Seq<Seq<char>>,
    targets: Seq<syntax::RedirectModel>,
)
    requires
        0 <= i <= ts.len(),
        words_before(ts, i) == words + c.args,
        redirects_before(ts, i) == targets + c.redirects,
    ensures
        ({
            let (d, k) = parser::simple_from(ts, i, c);
            &&& i <= k <= ts.len()
            &&& words_before(ts, k) == words + d.args
            &&& redirects_before(ts, k) == targets + d.redirects
            &&& same_counts(ts, i, k)
        }),
    decreases ts.len() - i,
{
    if i < ts.len() {
        match ts[i] {
            tokenizer::TokenModel::Word(w) => {
                assert(words_before(ts, i + 1) =~= words + c.args.push(w));
                assert(same_counts(ts, i, i + 1));
                lemma_simple(
                    ts,
                    i + 1,
                    syntax::SimpleModel { args: c.args.push(w), redirects: c.redirects },
                    words,
                    targets,
                );
            },
            tokenizer::TokenModel::Redirect(kind, target) => {
                let r = syntax::RedirectModel { kind, target };
                assert(redirects_before(ts, i + 1) =~= targets + c.redirects.push(r));
                assert(same_counts(ts, i, i + 1));
                lemma_simple(
                    ts,
                    i + 1,
                    syntax::SimpleModel { args: c.args, redirects: c.redirects.push(r) },
                    words,
                    targets,
                );
            },
            _ => {},
        }
    }
}

/// A pipeline takes the commands that it reads, and the `|` and `&` of them.
proof fn lemma_pipeline(
    ts: Seq<tokenizer::TokenModel>,
    i: int,
    cs: Seq<syntax::SimpleModel>,
    words: Seq<Seq<char>>,
    targets: Seq<syntax::RedirectModel>,
)
    requires
        0 <= i <= ts.len(),
        words_before(ts, i) == words + args_of(cs),
        redirects_before(ts, i) == targets + targets_of(cs),
        forall|k: int| 0 <= k < cs.len() ==> proper(#[trigger] cs[k]),
    ensures
        parser::pipeline_from(ts, i, cs) matches Ok((p, k)) ==> {
            &&& i < k <= ts.len()
            &&& words_before(ts, k) == words + args_of(p.commands)
            &&& redirects_before(ts, k) == targets + targets_of(p.commands)
            &&& p.commands.len() > cs.len()
            &&& forall|m: int| 0 <= m < p.commands.len() ==> proper(#[trigger] p.commands[m])
            &&& count_before(ts, tokenizer::TokenModel::Pipe, k) - count_before(
                ts,
                tokenizer::TokenModel::Pipe,
                i,
            ) == p.commands.len() - cs.len() - 1
            &&& count_before(ts, tokenizer::TokenModel::Background, k) - count_before(
                ts,
                tokenizer::TokenModel::Background,
                i,
            ) == if p.background {
                1int
            } else {
                0int
            }
            &&& count_before(ts, tokenizer::TokenModel::And, k) == count_before(
                ts,
                tokenizer::TokenModel::And,
                i,
            )
            &&& count_before(ts, tokenizer::TokenModel::Or, k) == count_before(
                ts,
                tokenizer::TokenModel::Or,
                i,
            )
        },
    decreases ts.len() - i,
{
    let none = syntax::SimpleModel { args: Seq::empty(), redirects: Seq::empty() };
    let before = words + args_of(cs);
    let targets_before = targets + targets_of(cs);
    assert(before + none.args =~= before);
    assert(targets_before + none.redirects =~= targets_before);
    lemma_simple(ts, i, none, before, targets_before);
    parser::lemma_simple_at(ts, i);
    if let Ok((c, k)) = parser::simple_at(ts, i) {
        let next = cs.push(c);
        assert(next.drop_last() =~= cs);
        assert(words_before(ts, k) =~= words + args_of(next));
        assert(redirects_before(ts, k) =~= targets + targets_of(next));
        assert forall|m: int| 0 <= m < next.len() implies proper(#[trigger] next[m]) by {
            if m < cs.len() {
                assert(next[m] == cs[m]);
            }
        }
        if parser::at(ts, k, tokenizer::TokenModel::Pipe) {
            assert(words_before(ts, k + 1) == words_before(ts, k));
            assert(redirects_before(ts, k + 1) == redirects_before(ts, k));
            lemma_pipeline(ts, k + 1, next, words, targets);
        }
    }
}

/// Semicolons hold nothing.
proof fn lemma_semicolons(ts: Seq<tokenizer::TokenModel>, i: int)
    requires
        0 <= i <= ts.len(),
    ensures
        ({
            let k = parser::skip_semicolons(ts, i);
            &&& i <= k <= ts.len()
            &&& words_before(ts, k) == words_before(ts, i)
            &&& redirects_before(ts, k) == redirects_before(ts, i)
            &&& same_counts(ts, i, k)
        }),
    decreases ts.len() - i,
{
    if parser::at(ts, i, tokenizer::TokenModel::Semicolon) {
        assert(same_counts(ts, i, i + 1));
        lemma_semicolons(ts, i + 1);
    }
}

/// What was read before `i` is what the jobs hold.
spec fn balanced(ts: Seq<tokenizer::TokenModel>, i: int, jobs: Seq<syntax::JobModel>) -> bool {
    &&& words_before(ts, i) == all_args(jobs)
    &&& redirects_before(ts, i) == all_redirects(jobs)
    &&& count_before(ts, tokenizer::TokenModel::Pipe, i) == all_pipes(jobs)
    &&& count_before(ts, tokenizer::TokenModel::Background, i) == all_background(jobs)
    &&& count_before(ts, tokenizer::TokenModel::And, i) == all_connected(jobs, Connector::And)
    &&& count_before(ts, tokenizer::TokenModel::Or, i) == all_connected(jobs, Connector::Or)
    &&& forall|k: int| 0 <= k < jobs.len() ==> proper_job(#[trigger] jobs[k])
}

/// One job more keeps the balance.
proof fn lemma_job(
    ts: Seq<tokenizer::TokenModel>,
    i: int,
    jobs: Seq<syntax::JobModel>,
    p: syntax::PipelineModel,
    k: int,
)
    requires
        0 <= i <= ts.len(),
        balanced(ts, i, jobs),
        parser::pipeline_at(ts, i) == Ok::<(syntax::PipelineModel, int), Seq<char>>((p, k)),
    ensures
        ({
            let (connector, j) = parser::connector_at(ts, k);
            let job = syntax::JobModel { unit: syntax::UnitModel::Pipeline(p), connector };
            let next = parser::skip_semicolons(ts, j);
            i < k <= j <= next <= ts.len() && balanced(ts, next, jobs.push(job))
        }),
{
    let none = Seq::<syntax::SimpleModel>::empty();
    let words = all_args(jobs);
    let targets = all_redirects(jobs);
    assert(words + args_of(none) =~= words);
    assert(targets + targets_of(none) =~= targets);
    lemma_pipeline(ts, i, none, words, targets);
    let (connector, j) = parser::connector_at(ts, k);
    let job = syntax::JobModel { unit: syntax::UnitModel::Pipeline(p), connector };
    let more = jobs.push(job);
    lemma_semicolons(ts, j);
    assert(more.drop_last() =~= jobs);
    assert(commands_of(job) == p.commands);
    assert forall|m: int| 0 <= m < more.len() implies proper_job(#[trigger] more[m]) by {
        if m < jobs.len() {
            assert(more[m] == jobs[m]);
        }
    }
}

/// A list of pipelines keeps the balance to the end of its tokens.
proof fn lemma_list(ts: Seq<tokenizer::TokenModel>, i: int, jobs: Seq<syntax::JobModel>)
    requires
        0 <= i <= ts.len(),
        flat(ts),
        balanced(ts, i, jobs),
    ensures
        parser::list_from(ts, i, Closer::Nothing, jobs) matches Ok((all, k)) ==> k == ts.len()
            && balanced(ts, k, all),
    decreases ts.len() - i,
{
    if i < ts.len() {
        assert(flat_token(ts[i]));
        if i + 1 < ts.len() {
            assert(flat_token(ts[i + 1]));
        }
        assert(!parser::terminator_at(ts, i, Closer::Nothing));
        assert(parser::unit_at(ts, i) == match parser::pipeline_at(ts, i) {
            Ok((p, k)) => Ok((syntax::UnitModel::Pipeline(p), k)),
            Err(e) => Err(e),
        });
        if let Ok((p, k)) = parser::pipeline_at(ts, i) {
            lemma_job(ts, i, jobs, p, k);
            let (connector, j) = parser::connector_at(ts, k);
            let job = syntax::JobModel { unit: syntax::UnitModel::Pipeline(p), connector };
            lemma_list(ts, parser::skip_semicolons(ts, j), jobs.push(job));
        }
    }
}

/// Parsing a flat program keeps what its tokens hold: the arguments of all
/// commands are the words, and their redirections the redirections, in the
/// order in which they were written; every `|` joins two commands, every `&`
/// puts a pipeline into the background, and every `&&` and `||` connects two
/// jobs. Each job is a pipeline, and no command is empty.
pub proof fn law_flat_programs(ts: Seq<tokenizer::TokenModel>, jobs: Seq<syntax::JobModel>)
    requires
        flat(ts),
        parser::jobs_of(ts) == Ok::<Seq<syntax::JobModel>, Seq<char>>(jobs),
    ensures
        all_args(jobs) == words_of(ts),
        all_redirects(jobs) == redirects_of(ts),
        all_pipes(jobs) == count_of(ts, tokenizer::TokenModel::Pipe),
        all_background(jobs) == count_of(ts, tokenizer::TokenModel::Background),
        all_connected(jobs, Connector::And) == count_of(ts, tokenizer::TokenModel::And),
        all_connected(jobs, Connector::Or) == count_of(ts, tokenizer::TokenModel::Or),
        forall|k: int| 0 <= k < jobs.len() ==> proper_job(#[trigger] jobs[k]),
{
    let none = Seq::<syntax::JobModel>::empty();
    lemma_semicolons(ts, 0);
    assert(balanced(ts, parser::skip_semicolons(ts, 0), none));
    lemma_list(ts, parser::skip_semicolons(ts, 0), none);
}

} // verus!
