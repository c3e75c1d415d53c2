//! Syntax analysis: tokens to jobs.

use crate::syntax;
use crate::text;
use crate::text::{same, u64_text};
use crate::tokenizer;
use crate::tokenizer::{RedirectKind, Token};
use vstd::prelude::*;

pub use crate::syntax::{
    CaseArm, CompoundCommand, Connector, IfChain, Job, Pipeline, Redirect, SimpleCommand, Unit,
};

verus! {

// ---------------------------------------------------------------------------
// Diagnostics.
// ---------------------------------------------------------------------------

/// What the `Debug` form of a string slice is: the text in double quotes, with
/// escapes.
pub uninterp spec fn quoted_debug(s: Seq<char>) -> Seq<char>;

/// `<str as Debug>::fmt` through `format!`. Claimed: the result depends on the
/// text alone.
#[verifier::external_body]
fn debug_text(s: &str) -> (r: String)
    ensures
        r@ == quoted_debug(s@),
{
    format!("{:?}", s)
}

/// The name of a redirection kind.
pub open spec fn kind_name(k: RedirectKind) -> Seq<char> {
    match k {
        RedirectKind::Out => "Out"@,
        RedirectKind::Append => "Append"@,
        RedirectKind::In => "In"@,
        RedirectKind::ErrOut => "ErrOut"@,
        RedirectKind::HereDoc => "HereDoc"@,
        RedirectKind::HereDocStrip => "HereDocStrip"@,
    }
}

/// How a token reads in a diagnostic.
pub open spec fn token_debug(t: tokenizer::TokenModel) -> Seq<char> {
    match t {
        tokenizer::TokenModel::Word(w) => "Word("@ + quoted_debug(w) + ")"@,
        tokenizer::TokenModel::Pipe => "Pipe"@,
        tokenizer::TokenModel::Redirect(k, w) => "Redirect("@ + kind_name(k) + ", "@
            + quoted_debug(w) + ")"@,
        tokenizer::TokenModel::And => "And"@,
        tokenizer::TokenModel::Or => "Or"@,
        tokenizer::TokenModel::Semicolon => "Semicolon"@,
        tokenizer::TokenModel::CaseEnd => "CaseEnd"@,
        tokenizer::TokenModel::LParen => "LParen"@,
        tokenizer::TokenModel::RParen => "RParen"@,
        tokenizer::TokenModel::LBrace => "LBrace"@,
        tokenizer::TokenModel::RBrace => "RBrace"@,
        tokenizer::TokenModel::Background => "Background"@,
    }
}

/// How the token found at `i`, if any, reads in a diagnostic.
pub open spec fn found_debug(t: Seq<tokenizer::TokenModel>, i: int) -> Seq<char> {
    if 0 <= i < t.len() {
        "Some("@ + token_debug(t[i]) + ")"@
    } else {
        "None"@
    }
}

fn name_of(k: RedirectKind) -> (r: String)
    ensures
        r@ == kind_name(k),
{
    match k {
        RedirectKind::Out => "Out".to_owned(),
        RedirectKind::Append => "Append".to_owned(),
        RedirectKind::In => "In".to_owned(),
        RedirectKind::ErrOut => "ErrOut".to_owned(),
        RedirectKind::HereDoc => "HereDoc".to_owned(),
        RedirectKind::HereDocStrip => "HereDocStrip".to_owned(),
    }
}

fn describe(t: &Token) -> (r: String)
    ensures
        r@ == token_debug(t.deep_view()),
{
    match t {
        Token::Word(w) => {
            let mut out = "Word(".to_owned();
            out.append(debug_text(w.as_str()).as_str());
            out.append(")");
            out
        },
        Token::Pipe => "Pipe".to_owned(),
        Token::Redirect(k, w) => {
            let mut out = "Redirect(".to_owned();
            out.append(name_of(*k).as_str());
            out.append(", ");
            out.append(debug_text(w.as_str()).as_str());
            out.append(")");
            out
        },
        Token::And => "And".to_owned(),
        Token::Or => "Or".to_owned(),
        Token::Semicolon => "Semicolon".to_owned(),
        Token::CaseEnd => "CaseEnd".to_owned(),
        Token::LParen => "LParen".to_owned(),
        Token::RParen => "RParen".to_owned(),
        Token::LBrace => "LBrace".to_owned(),
        Token::RBrace => "RBrace".to_owned(),
        Token::Background => "Background".to_owned(),
    }
}

/// `prefix`, then the token found at `i`.
fn found(prefix: &str, tokens: &[Token], i: usize) -> (r: String)
    ensures
        r@ == prefix@ + found_debug(tokenizer::token_models(tokens@), i as int),
{
    let mut out = prefix.to_owned();
    if i < tokens.len() {
        out.append("Some(");
        out.append(describe(&tokens[i]).as_str());
        out.append(")");
        assert(out@ =~= prefix@ + ("Some("@ + token_debug(tokens@[i as int].deep_view()) + ")"@));
    } else {
        out.append("None");
    }
    out
}

// ---------------------------------------------------------------------------
// Looking at tokens.
// ---------------------------------------------------------------------------

/// The token at `i` is `t`.
pub open spec fn at(ts: Seq<tokenizer::TokenModel>, i: int, t: tokenizer::TokenModel) -> bool {
    0 <= i < ts.len() && ts[i] == t
}

/// The token at `i` is the word `w`.
pub open spec fn at_word(ts: Seq<tokenizer::TokenModel>, i: int, w: Seq<char>) -> bool {
    at(ts, i, tokenizer::TokenModel::Word(w))
}

/// The text of the word at `i`, if a word stands there.
pub open spec fn word_at(ts: Seq<tokenizer::TokenModel>, i: int) -> Option<Seq<char>> {
    if 0 <= i < ts.len() {
        match ts[i] {
            tokenizer::TokenModel::Word(w) => Some(w),
            _ => None,
        }
    } else {
        None
    }
}

/// The first position from `i` on that holds no `;`.
pub open spec fn skip_semicolons(ts: Seq<tokenizer::TokenModel>, i: int) -> int
    decreases ts.len() - i,
{
    if at(ts, i, tokenizer::TokenModel::Semicolon) {
        skip_semicolons(ts, i + 1)
    } else {
        i
    }
}

pub proof fn lemma_skip_semicolons(ts: Seq<tokenizer::TokenModel>, i: int)
    ensures
        i <= skip_semicolons(ts, i),
        i <= ts.len() ==> skip_semicolons(ts, i) <= ts.len(),
    decreases ts.len() - i,
{
    if at(ts, i, tokenizer::TokenModel::Semicolon) {
        lemma_skip_semicolons(ts, i + 1);
    }
}

fn is_word(tokens: &[Token], i: usize, w: &str) -> (r: bool)
    ensures
        r == at_word(tokenizer::token_models(tokens@), i as int, w@),
{
    if i < tokens.len() {
        match &tokens[i] {
            Token::Word(x) => same(x.as_str(), w),
            _ => false,
        }
    } else {
        false
    }
}

fn is_semicolon(tokens: &[Token], i: usize) -> (r: bool)
    ensures
        r == at(tokenizer::token_models(tokens@), i as int, tokenizer::TokenModel::Semicolon),
{
    i < tokens.len() && matches!(tokens[i], Token::Semicolon)
}

fn is_left_brace(tokens: &[Token], i: usize) -> (r: bool)
    ensures
        r == at(tokenizer::token_models(tokens@), i as int, tokenizer::TokenModel::LBrace),
{
    i < tokens.len() && matches!(tokens[i], Token::LBrace)
}

fn after_semicolons(tokens: &[Token], from: usize) -> (r: usize)
    ensures
        r == skip_semicolons(tokenizer::token_models(tokens@), from as int),
        from <= r,
        from <= tokens@.len() ==> r <= tokens@.len(),
{
    let mut i: usize = from;
    while is_semicolon(tokens, i)
        invariant
            from <= i,
            from <= tokens@.len() ==> i <= tokens@.len(),
            skip_semicolons(tokenizer::token_models(tokens@), from as int) == skip_semicolons(
                tokenizer::token_models(tokens@),
                i as int,
            ),
        decreases tokens@.len() - i,
    {
        let n: usize = tokens.len();
        i += 1;
    }
    i
}

/// The reserved words that end a list of commands, by where the list stands.
#[derive(Clone, Copy, PartialEq, Eq, Structural)]
pub enum Closer {
    /// At the top, in a group: none.
    Nothing,
    /// In a condition of `if`.
    Then,
    /// In a branch of `if`.
    Branch,
    /// Behind `else`.
    Fi,
    /// In the condition of a loop.
    Do,
    /// In the body of a loop.
    Done,
    /// In an arm of `case`.
    Esac,
}

/// The word ends a list that the closer belongs to.
pub open spec fn closes(c: Closer, w: Seq<char>) -> bool {
    match c {
        Closer::Nothing => false,
        Closer::Then => w == "then"@,
        Closer::Branch => w == "elif"@ || w == "else"@ || w == "fi"@,
        Closer::Fi => w == "fi"@,
        Closer::Do => w == "do"@,
        Closer::Done => w == "done"@,
        Closer::Esac => w == "esac"@,
    }
}

/// A list of commands ends at `i`: at a reserved word, at `;;` or at `}`.
pub open spec fn terminator_at(ts: Seq<tokenizer::TokenModel>, i: int, c: Closer) -> bool {
    ||| at(ts, i, tokenizer::TokenModel::CaseEnd)
    ||| at(ts, i, tokenizer::TokenModel::RBrace)
    ||| match word_at(ts, i) {
        Some(w) => closes(c, w),
        None => false,
    }
}

fn is_terminator(tokens: &[Token], i: usize, c: Closer) -> (r: bool)
    ensures
        r == terminator_at(tokenizer::token_models(tokens@), i as int, c),
{
    if i >= tokens.len() {
        return false;
    }
    match &tokens[i] {
        Token::CaseEnd => true,
        Token::RBrace => true,
        Token::Word(w) => {
            let w = w.as_str();
            match c {
                Closer::Nothing => false,
                Closer::Then => same(w, "then"),
                Closer::Branch => same(w, "elif") || same(w, "else") || same(w, "fi"),
                Closer::Fi => same(w, "fi"),
                Closer::Do => same(w, "do"),
                Closer::Done => same(w, "done"),
                Closer::Esac => same(w, "esac"),
            }
        },
        _ => false,
    }
}

/// The diagnostic for a missing reserved word.
pub open spec fn expected_word(ts: Seq<tokenizer::TokenModel>, i: int, w: Seq<char>) -> Seq<char> {
    "expected '"@ + w + "', found "@ + found_debug(ts, i)
}

/// The position behind the reserved word `w` at `i`.
pub open spec fn word_behind(ts: Seq<tokenizer::TokenModel>, i: int, w: Seq<char>) -> Result<
    int,
    Seq<char>,
> {
    if at_word(ts, i, w) {
        Ok(i + 1)
    } else {
        Err(expected_word(ts, i, w))
    }
}

fn expect_word(tokens: &[Token], i: usize, word: &str) -> (r: Result<usize, String>)
    ensures
        match r {
            Ok(k) => word_behind(tokenizer::token_models(tokens@), i as int, word@) == Ok::<
                int,
                Seq<char>,
            >(k as int) && k == i + 1 && k <= tokens@.len(),
            Err(e) => word_behind(tokenizer::token_models(tokens@), i as int, word@) == Err::<
                int,
                Seq<char>,
            >(e@),
        },
{
    let n: usize = tokens.len();
    if is_word(tokens, i, word) {
        Ok(i + 1)
    } else {
        let mut prefix = "expected '".to_owned();
        prefix.append(word);
        prefix.append("', found ");
        Err(found(prefix.as_str(), tokens, i))
    }
}

// ---------------------------------------------------------------------------
// Simple commands and pipelines.
// ---------------------------------------------------------------------------

/// The simple command that reads on from `i`, `c` being what was read before.
pub open spec fn simple_from(
    ts: Seq<tokenizer::TokenModel>,
    i: int,
    c: syntax::SimpleModel,
) -> (syntax::SimpleModel, int)
    decreases ts.len() - i,
{
    if i < 0 || i >= ts.len() {
        (c, i)
    } else {
        match ts[i] {
            tokenizer::TokenModel::Word(w) => simple_from(
                ts,
                i + 1,
                syntax::SimpleModel { args: c.args.push(w), redirects: c.redirects },
            ),
            tokenizer::TokenModel::Redirect(kind, target) => simple_from(
                ts,
                i + 1,
                syntax::SimpleModel {
                    args: c.args,
                    redirects: c.redirects.push(syntax::RedirectModel { kind, target }),
                },
            ),
            _ => (c, i),
        }
    }
}

/// The simple command at `i`: words and redirections, at least one of either.
pub open spec fn simple_at(ts: Seq<tokenizer::TokenModel>, i: int) -> Result<
    (syntax::SimpleModel, int),
    Seq<char>,
> {
    let (c, k) = simple_from(
        ts,
        i,
        syntax::SimpleModel { args: Seq::empty(), redirects: Seq::empty() },
    );
    if c.args.len() == 0 && c.redirects.len() == 0 {
        Err("expected a command"@)
    } else {
        Ok((c, k))
    }
}

pub proof fn lemma_simple_from(ts: Seq<tokenizer::TokenModel>, i: int, c: syntax::SimpleModel)
    requires
        0 <= i <= ts.len(),
    ensures
        i <= simple_from(ts, i, c).1 <= ts.len(),
        simple_from(ts, i, c).1 == i ==> simple_from(ts, i, c).0 == c,
    decreases ts.len() - i,
{
    if i < ts.len() {
        match ts[i] {
            tokenizer::TokenModel::Word(w) => {
                lemma_simple_from(
                    ts,
                    i + 1,
                    syntax::SimpleModel { args: c.args.push(w), redirects: c.redirects },
                );
            },
            tokenizer::TokenModel::Redirect(kind, target) => {
                lemma_simple_from(
                    ts,
                    i + 1,
                    syntax::SimpleModel {
                        args: c.args,
                        redirects: c.redirects.push(syntax::RedirectModel { kind, target }),
                    },
                );
            },
            _ => {},
        }
    }
}

/// A simple command takes up at least one token.
pub proof fn lemma_simple_at(ts: Seq<tokenizer::TokenModel>, i: int)
    requires
        0 <= i <= ts.len(),
    ensures
        simple_at(ts, i) matches Ok((_, k)) ==> i < k <= ts.len(),
{
    lemma_simple_from(
        ts,
        i,
        syntax::SimpleModel { args: Seq::empty(), redirects: Seq::empty() },
    );
}

/// The pipeline that reads on from `i`, `cs` being the commands before.
pub open spec fn pipeline_from(
    ts: Seq<tokenizer::TokenModel>,
    i: int,
    cs: Seq<syntax::SimpleModel>,
) -> Result<(syntax::PipelineModel, int), Seq<char>>
    decreases ts.len() - i,
{
    if i < 0 || i > ts.len() {
        Err("expected a command"@)
    } else {
        proof {
            lemma_simple_at(ts, i);
        }
        match simple_at(ts, i) {
            Ok((c, k)) => if at(ts, k, tokenizer::TokenModel::Pipe) {
                pipeline_from(ts, k + 1, cs.push(c))
            } else if at(ts, k, tokenizer::TokenModel::Background) {
                Ok((syntax::PipelineModel { commands: cs.push(c), background: true }, k + 1))
            } else {
                Ok((syntax::PipelineModel { commands: cs.push(c), background: false }, k))
            },
            Err(e) => Err(e),
        }
    }
}

/// The pipeline at `i`.
pub open spec fn pipeline_at(ts: Seq<tokenizer::TokenModel>, i: int) -> Result<
    (syntax::PipelineModel, int),
    Seq<char>,
> {
    pipeline_from(ts, i, Seq::empty())
}

/// Parses a simple command: words and redirections.
fn parse_simple_command(tokens: &[Token], from: usize) -> (r: Result<
    (SimpleCommand, usize),
    String,
>)
    requires
        from <= tokens@.len(),
    ensures
        match r {
            Ok((c, k)) => simple_at(tokenizer::token_models(tokens@), from as int) == Ok::<
                (syntax::SimpleModel, int),
                Seq<char>,
            >((c.model(), k as int)) && from < k <= tokens@.len(),
            Err(e) => simple_at(tokenizer::token_models(tokens@), from as int) == Err::<
                (syntax::SimpleModel, int),
                Seq<char>,
            >(e@),
        },
{
    let mut args: Vec<String> = Vec::new();
    let mut redirects: Vec<Redirect> = Vec::new();
    let mut i: usize = from;
    let ghost ts = tokenizer::token_models(tokens@);
    let ghost start = syntax::SimpleModel { args: Seq::empty(), redirects: Seq::empty() };
    let mut going = true;
    assert(text::texts(args@) =~= Seq::empty());
    assert(syntax::redirect_models(redirects@) =~= Seq::empty());
    while going && i < tokens.len()
        invariant
            from <= i <= tokens@.len(),
            ts == tokenizer::token_models(tokens@),
            simple_from(ts, from as int, start) == simple_from(
                ts,
                i as int,
                syntax::SimpleModel {
                    args: text::texts(args@),
                    redirects: syntax::redirect_models(redirects@),
                },
            ),
            !going ==> simple_from(ts, from as int, start) == (
                syntax::SimpleModel {
                    args: text::texts(args@),
                    redirects: syntax::redirect_models(redirects@),
                },
                i as int,
            ),
        decreases tokens@.len() - i + if going {
                1int
            } else {
                0int
            },
    {
        let ghost before_args = text::texts(args@);
        let ghost before_redirects = syntax::redirect_models(redirects@);
        match &tokens[i] {
            Token::Word(w) => {
                args.push(w.clone());
                assert(text::texts(args@) =~= before_args.push(w@));
                i += 1;
            },
            Token::Redirect(kind, target) => {
                redirects.push(Redirect { kind: *kind, target: target.clone() });
                assert(syntax::redirect_models(redirects@) =~= before_redirects.push(
                    syntax::RedirectModel { kind: *kind, target: target@ },
                ));
                i += 1;
            },
            _ => {
                going = false;
            },
        }
    }
    proof {
        lemma_simple_at(ts, from as int);
    }
    if args.len() == 0 && redirects.len() == 0 {
        Err("expected a command".to_owned())
    } else {
        Ok((SimpleCommand { args, redirects }, i))
    }
}

/// Parses commands joined by `|`, and a trailing `&`.
fn parse_pipeline(tokens: &[Token], from: usize) -> (r: Result<(Pipeline, usize), String>)
    requires
        from <= tokens@.len(),
    ensures
        match r {
            Ok((p, k)) => pipeline_at(tokenizer::token_models(tokens@), from as int) == Ok::<
                (syntax::PipelineModel, int),
                Seq<char>,
            >((p.model(), k as int)) && from < k <= tokens@.len(),
            Err(e) => pipeline_at(tokenizer::token_models(tokens@), from as int) == Err::<
                (syntax::PipelineModel, int),
                Seq<char>,
            >(e@),
        },
{
    let mut commands: Vec<SimpleCommand> = Vec::new();
    let mut i: usize = from;
    let n: usize = tokens.len();
    let ghost ts = tokenizer::token_models(tokens@);
    assert(syntax::simple_models(commands@) =~= Seq::empty());
    loop
        invariant
            n == tokens@.len(),
            from <= i <= n,
            ts == tokenizer::token_models(tokens@),
            pipeline_at(ts, from as int) == pipeline_from(
                ts,
                i as int,
                syntax::simple_models(commands@),
            ),
        decreases n - i,
    {
        let ghost before = syntax::simple_models(commands@);
        match parse_simple_command(tokens, i) {
            Ok((cmd, k)) => {
                let ghost m = cmd.model();
                commands.push(cmd);
                assert(syntax::simple_models(commands@) =~= before.push(m));
                i = k;
                if i < n {
                    match &tokens[i] {
                        Token::Pipe => {
                            i += 1;
                        },
                        Token::Background => {
                            return Ok((Pipeline { commands, background: true }, i + 1));
                        },
                        _ => {
                            return Ok((Pipeline { commands, background: false }, i));
                        },
                    }
                } else {
                    return Ok((Pipeline { commands, background: false }, i));
                }
            },
            Err(e) => {
                return Err(e);
            },
        }
    }
}

// ---------------------------------------------------------------------------
// Lists and compound commands: the grammar.
// ---------------------------------------------------------------------------

/// A parsed part and the position behind it, or a diagnostic.
pub type Parsed<T> = Result<(T, int), Seq<char>>;

/// The connector at `i` and the position behind it; none reads as a sequence.
pub open spec fn connector_at(ts: Seq<tokenizer::TokenModel>, i: int) -> (Connector, int) {
    if at(ts, i, tokenizer::TokenModel::And) {
        (Connector::And, i + 1)
    } else if at(ts, i, tokenizer::TokenModel::Or) {
        (Connector::Or, i + 1)
    } else if at(ts, i, tokenizer::TokenModel::Semicolon) {
        (Connector::Sequence, i + 1)
    } else {
        (Connector::Sequence, i)
    }
}

/// `k` is a position at or behind `i`. Every part ends at such a position, so
/// the grammar functions below never take their other branch.
pub open spec fn forward(ts: Seq<tokenizer::TokenModel>, i: int, k: int) -> bool {
    i <= k <= ts.len()
}

/// The list of commands that reads on from `i`, `acc` being the jobs before.
pub open spec fn list_from(
    ts: Seq<tokenizer::TokenModel>,
    i: int,
    c: Closer,
    acc: Seq<syntax::JobModel>,
) -> Parsed<Seq<syntax::JobModel>>
    decreases ts.len() - i, 3nat,
{
    if i < 0 || i >= ts.len() || terminator_at(ts, i, c) {
        Ok((acc, i))
    } else {
        match unit_at(ts, i) {
            Err(e) => Err(e),
            Ok((unit, k)) => if !forward(ts, i + 1, k) {
                arbitrary()
            } else {
                let (connector, j) = connector_at(ts, k);
                let next = skip_semicolons(ts, j);
                proof {
                    lemma_skip_semicolons(ts, j);
                }
                list_from(ts, next, c, acc.push(syntax::JobModel { unit, connector }))
            },
        }
    }
}

/// The list of commands at `i`, up to one of the closer's words, `;;`, `}` or
/// the end.
pub open spec fn list_at(ts: Seq<tokenizer::TokenModel>, i: int, c: Closer) -> Parsed<
    Seq<syntax::JobModel>,
>
    decreases ts.len() - i, 4nat,
{
    proof {
        lemma_skip_semicolons(ts, i);
    }
    if i < 0 || i > ts.len() {
        Ok((Seq::empty(), i))
    } else {
        list_from(ts, skip_semicolons(ts, i), c, Seq::empty())
    }
}

/// The unit at `i`.
pub open spec fn unit_at(ts: Seq<tokenizer::TokenModel>, i: int) -> Parsed<syntax::UnitModel>
    decreases ts.len() - i, 2nat,
{
    if at_word(ts, i, "if"@) {
        match if_from(ts, i + 1, Seq::empty()) {
            Ok((chain, k)) => Ok((syntax::UnitModel::Compound(syntax::CompoundModel::If(chain)), k)),
            Err(e) => Err(e),
        }
    } else if at_word(ts, i, "for"@) {
        compound_unit(for_at(ts, i + 1))
    } else if at_word(ts, i, "while"@) {
        compound_unit(while_at(ts, i + 1, false))
    } else if at_word(ts, i, "until"@) {
        compound_unit(while_at(ts, i + 1, true))
    } else if at_word(ts, i, "case"@) {
        compound_unit(case_at(ts, i + 1))
    } else if word_at(ts, i) is Some && at(ts, i + 1, tokenizer::TokenModel::LParen) {
        compound_unit(function_at(ts, i))
    } else if at(ts, i, tokenizer::TokenModel::LBrace) {
        match group_at(ts, i) {
            Ok((jobs, k)) => Ok((syntax::UnitModel::Group(jobs), k)),
            Err(e) => Err(e),
        }
    } else {
        match pipeline_at(ts, i) {
            Ok((p, k)) => Ok((syntax::UnitModel::Pipeline(p), k)),
            Err(e) => Err(e),
        }
    }
}

/// A compound command as a unit.
pub open spec fn compound_unit(r: Parsed<syntax::CompoundModel>) -> Parsed<syntax::UnitModel> {
    match r {
        Ok((c, k)) => Ok((syntax::UnitModel::Compound(c), k)),
        Err(e) => Err(e),
    }
}

/// The group `{ ...; }` that opens at `i`.
pub open spec fn group_at(ts: Seq<tokenizer::TokenModel>, i: int) -> Parsed<Seq<syntax::JobModel>>
    decreases ts.len() - i, 0nat,
{
    if !at(ts, i, tokenizer::TokenModel::LBrace) {
        Err("expected '{'"@)
    } else {
        match list_at(ts, i + 1, Closer::Nothing) {
            Ok((jobs, k)) => if at(ts, k, tokenizer::TokenModel::RBrace) {
                Ok((jobs, k + 1))
            } else {
                Err("expected '}' to close the group"@)
            },
            Err(e) => Err(e),
        }
    }
}

/// The function definition `name () { ...; }` or `name () command` at `i`.
pub open spec fn function_at(ts: Seq<tokenizer::TokenModel>, i: int) -> Parsed<syntax::CompoundModel>
    decreases ts.len() - i, 1nat,
{
    match word_at(ts, i) {
        None => Err("expected a function name"@),
        Some(name) => if !at(ts, i + 1, tokenizer::TokenModel::LParen) {
            Err("expected '(' in function definition of '"@ + name + "'"@)
        } else if !at(ts, i + 2, tokenizer::TokenModel::RParen) {
            Err("expected ')' in function definition of '"@ + name + "'"@)
        } else if at(ts, i + 3, tokenizer::TokenModel::LBrace) {
            match group_at(ts, i + 3) {
                Ok((body, k)) => Ok((syntax::CompoundModel::FunctionDef { name, body }, k)),
                Err(e) => Err(e),
            }
        } else {
            match unit_at(ts, i + 3) {
                Ok((unit, k)) => Ok(
                    (
                        syntax::CompoundModel::FunctionDef {
                            name,
                            body: seq![syntax::JobModel { unit, connector: Connector::Sequence }],
                        },
                        k,
                    ),
                ),
                Err(e) => Err(e),
            }
        },
    }
}

/// The end of an `if` chain: the word `fi` at `i`.
pub open spec fn if_end(ts: Seq<tokenizer::TokenModel>, i: int, chain: syntax::IfModel) -> Parsed<
    syntax::IfModel,
> {
    match word_behind(ts, i, "fi"@) {
        Ok(k) => Ok((chain, k)),
        Err(e) => Err(e),
    }
}

/// The `if` chain whose next condition stands at `i`, `branches` being the
/// branches before.
pub open spec fn if_from(
    ts: Seq<tokenizer::TokenModel>,
    i: int,
    branches: Seq<(Seq<syntax::JobModel>, Seq<syntax::JobModel>)>,
) -> Parsed<syntax::IfModel>
    decreases ts.len() - i, 5nat,
{
    match list_at(ts, i, Closer::Then) {
        Err(e) => Err(e),
        Ok((cond, k1)) => if !forward(ts, i, k1) {
            arbitrary()
        } else {
            match word_behind(ts, k1, "then"@) {
                Err(e) => Err(e),
                Ok(k2) => match list_at(ts, k2, Closer::Branch) {
                    Err(e) => Err(e),
                    Ok((body, k3)) => if !forward(ts, k2, k3) {
                        arbitrary()
                    } else if at_word(ts, k3, "elif"@) {
                        if_from(ts, k3 + 1, branches.push((cond, body)))
                    } else if at_word(ts, k3, "else"@) {
                        match list_at(ts, k3 + 1, Closer::Fi) {
                            Err(e) => Err(e),
                            Ok((other, k4)) => if_end(
                                ts,
                                k4,
                                syntax::IfModel {
                                    branches: branches.push((cond, body)),
                                    else_body: Some(other),
                                },
                            ),
                        }
                    } else {
                        if_end(
                            ts,
                            k3,
                            syntax::IfModel {
                                branches: branches.push((cond, body)),
                                else_body: None,
                            },
                        )
                    },
                },
            }
        },
    }
}

/// The words of a `for` loop from `i` on: up to `do` or another token.
pub open spec fn for_words(
    ts: Seq<tokenizer::TokenModel>,
    i: int,
    acc: Seq<Seq<char>>,
) -> (Seq<Seq<char>>, int)
    decreases ts.len() - i,
{
    match word_at(ts, i) {
        Some(w) => if w == "do"@ {
            (acc, i)
        } else {
            for_words(ts, i + 1, acc.push(w))
        },
        None => (acc, i),
    }
}

pub proof fn lemma_for_words(ts: Seq<tokenizer::TokenModel>, i: int, acc: Seq<Seq<char>>)
    ensures
        i <= for_words(ts, i, acc).1,
        i <= ts.len() ==> for_words(ts, i, acc).1 <= ts.len(),
    decreases ts.len() - i,
{
    match word_at(ts, i) {
        Some(w) => {
            if w != "do"@ {
                lemma_for_words(ts, i + 1, acc.push(w));
            }
        },
        None => {},
    }
}

/// The part of a loop from `do` at `i` to `done`.
pub open spec fn loop_body_at(ts: Seq<tokenizer::TokenModel>, i: int) -> Parsed<
    Seq<syntax::JobModel>,
>
    decreases ts.len() - i, 5nat,
{
    match word_behind(ts, i, "do"@) {
        Err(e) => Err(e),
        Ok(k1) => match list_at(ts, k1, Closer::Done) {
            Err(e) => Err(e),
            Ok((body, k2)) => match word_behind(ts, k2, "done"@) {
                Err(e) => Err(e),
                Ok(k3) => Ok((body, k3)),
            },
        },
    }
}

/// The `for` loop whose variable stands at `i`.
pub open spec fn for_at(ts: Seq<tokenizer::TokenModel>, i: int) -> Parsed<syntax::CompoundModel>
    decreases ts.len() - i, 6nat,
{
    match word_at(ts, i) {
        None => Err("expected a variable name after 'for', found "@ + found_debug(ts, i)),
        Some(var) => match word_behind(ts, i + 1, "in"@) {
            Err(e) => Err(e),
            Ok(k1) => {
                let (words, k2) = for_words(ts, k1, Seq::empty());
                proof {
                    lemma_for_words(ts, k1, Seq::empty());
                    lemma_skip_semicolons(ts, k2);
                }
                match loop_body_at(ts, skip_semicolons(ts, k2)) {
                    Err(e) => Err(e),
                    Ok((body, k3)) => Ok((syntax::CompoundModel::For { var, words, body }, k3)),
                }
            },
        },
    }
}

/// The `while` or `until` loop whose condition stands at `i`.
pub open spec fn while_at(ts: Seq<tokenizer::TokenModel>, i: int, until: bool) -> Parsed<
    syntax::CompoundModel,
>
    decreases ts.len() - i, 6nat,
{
    match list_at(ts, i, Closer::Do) {
        Err(e) => Err(e),
        Ok((cond, k1)) => if !forward(ts, i, k1) {
            arbitrary()
        } else {
            match loop_body_at(ts, k1) {
                Err(e) => Err(e),
                Ok((body, k2)) => Ok((syntax::CompoundModel::While { cond, body, until }, k2)),
            }
        },
    }
}

/// The patterns of a `case` arm from `i` on, `acc` being those before.
pub open spec fn patterns_from(
    ts: Seq<tokenizer::TokenModel>,
    i: int,
    acc: Seq<Seq<char>>,
) -> Parsed<Seq<Seq<char>>>
    decreases ts.len() - i,
{
    match word_at(ts, i) {
        None => Err("expected a pattern in 'case', found "@ + found_debug(ts, i)),
        Some(w) => if at(ts, i + 1, tokenizer::TokenModel::Pipe) {
            patterns_from(ts, i + 2, acc.push(w))
        } else if at(ts, i + 1, tokenizer::TokenModel::RParen) {
            Ok((acc.push(w), i + 2))
        } else {
            Err("expected '|' or ')' in 'case', found "@ + found_debug(ts, i + 1))
        },
    }
}

pub proof fn lemma_patterns_from(ts: Seq<tokenizer::TokenModel>, i: int, acc: Seq<Seq<char>>)
    ensures
        patterns_from(ts, i, acc) matches Ok((_, k)) ==> i < k <= ts.len(),
    decreases ts.len() - i,
{
    match word_at(ts, i) {
        Some(w) => {
            if at(ts, i + 1, tokenizer::TokenModel::Pipe) {
                lemma_patterns_from(ts, i + 2, acc.push(w));
            }
        },
        None => {},
    }
}

/// The position behind an optional `;;` at `i`.
pub open spec fn behind_case_end(ts: Seq<tokenizer::TokenModel>, i: int) -> int {
    if at(ts, i, tokenizer::TokenModel::CaseEnd) {
        i + 1
    } else {
        i
    }
}

/// The arms of a `case` from `i` on, `arms` being those before.
pub open spec fn arms_from(
    ts: Seq<tokenizer::TokenModel>,
    i: int,
    arms: Seq<syntax::CaseArmModel>,
) -> Parsed<Seq<syntax::CaseArmModel>>
    decreases ts.len() - i, 5nat,
{
    if at_word(ts, i, "esac"@) {
        Ok((arms, i + 1))
    } else if i < 0 || i >= ts.len() {
        Err("expected 'esac' to close the 'case'"@)
    } else {
        match patterns_from(ts, i, Seq::empty()) {
            Err(e) => Err(e),
            Ok((patterns, k1)) => {
                proof {
                    lemma_patterns_from(ts, i, Seq::empty());
                }
                match list_at(ts, k1, Closer::Esac) {
                    Err(e) => Err(e),
                    Ok((body, k2)) => if !forward(ts, k1, k2) {
                        arbitrary()
                    } else {
                        arms_from(
                            ts,
                            behind_case_end(ts, k2),
                            arms.push(syntax::CaseArmModel { patterns, body }),
                        )
                    },
                }
            },
        }
    }
}

/// The `case` whose subject stands at `i`.
pub open spec fn case_at(ts: Seq<tokenizer::TokenModel>, i: int) -> Parsed<syntax::CompoundModel>
    decreases ts.len() - i, 6nat,
{
    match word_at(ts, i) {
        None => Err("expected a word after 'case', found "@ + found_debug(ts, i)),
        Some(word) => match word_behind(ts, i + 1, "in"@) {
            Err(e) => Err(e),
            Ok(k1) => {
                proof {
                    lemma_skip_semicolons(ts, k1);
                }
                match arms_from(ts, skip_semicolons(ts, k1), Seq::empty()) {
                    Err(e) => Err(e),
                    Ok((arms, k2)) => Ok((syntax::CompoundModel::Case { word, arms }, k2)),
                }
            },
        },
    }
}

/// The jobs that a whole sequence of tokens denotes.
pub open spec fn jobs_of(ts: Seq<tokenizer::TokenModel>) -> Result<
    Seq<syntax::JobModel>,
    Seq<char>,
> {
    match list_at(ts, 0, Closer::Nothing) {
        Err(e) => Err(e),
        Ok((jobs, k)) => if k == ts.len() {
            Ok(jobs)
        } else {
            Err(
                "unexpected token at position "@ + text::decimal(k as nat) + ": "@ + found_debug(
                    ts,
                    k,
                ),
            )
        },
    }
}

// ---------------------------------------------------------------------------
// Lists and compound commands: the parser.
// ---------------------------------------------------------------------------

/// The model of a parsed list.
pub open spec fn list_model(r: Result<(Vec<Job>, usize), String>) -> Parsed<
    Seq<syntax::JobModel>,
> {
    match r {
        Ok((v, k)) => Ok((syntax::job_models(v@), k as int)),
        Err(e) => Err(e@),
    }
}

/// The model of a parsed unit.
pub open spec fn unit_model(r: Result<(Unit, usize), String>) -> Parsed<syntax::UnitModel> {
    match r {
        Ok((u, k)) => Ok((u.model(), k as int)),
        Err(e) => Err(e@),
    }
}

/// The model of a parsed compound command.
pub open spec fn compound_model(r: Result<(CompoundCommand, usize), String>) -> Parsed<
    syntax::CompoundModel,
> {
    match r {
        Ok((c, k)) => Ok((c.model(), k as int)),
        Err(e) => Err(e@),
    }
}

/// The model of a parsed `if` chain.
pub open spec fn if_model(r: Result<(IfChain, usize), String>) -> Parsed<syntax::IfModel> {
    match r {
        Ok((c, k)) => Ok((c.model(), k as int)),
        Err(e) => Err(e@),
    }
}

/// The model of parsed texts.
pub open spec fn texts_model(r: Result<(Vec<String>, usize), String>) -> Parsed<Seq<Seq<char>>> {
    match r {
        Ok((v, k)) => Ok((text::texts(v@), k as int)),
        Err(e) => Err(e@),
    }
}

/// A parsed part ends at a position in `lo..=len`.
pub open spec fn ends_in<T>(r: Result<(T, usize), String>, lo: int, len: nat) -> bool {
    r matches Ok((_, k)) ==> lo <= k <= len
}

/// Parses jobs until the end of the tokens, a reserved word of the closer,
/// `;;` or `}`.
fn parse_command_list(tokens: &[Token], from: usize, c: Closer) -> (r: Result<
    (Vec<Job>, usize),
    String,
>)
    requires
        from <= tokens@.len(),
    ensures
        list_model(r) == list_at(tokenizer::token_models(tokens@), from as int, c),
        ends_in(r, from as int, tokens@.len()),
    decreases tokens@.len() - from, 4nat,
{
    let ghost ts = tokenizer::token_models(tokens@);
    let n: usize = tokens.len();
    let mut jobs: Vec<Job> = Vec::new();
    let mut i: usize = after_semicolons(tokens, from);
    assert(syntax::job_models(jobs@) =~= Seq::empty());
    while i < n && !is_terminator(tokens, i, c)
        invariant
            n == tokens@.len(),
            from <= i <= n,
            ts == tokenizer::token_models(tokens@),
            list_at(ts, from as int, c) == list_from(
                ts,
                i as int,
                c,
                syntax::job_models(jobs@),
            ),
        decreases n - i,
    {
        let ghost before = syntax::job_models(jobs@);
        match parse_unit(tokens, i) {
            Err(e) => {
                return Err(e);
            },
            Ok((unit, k)) => {
                let ghost m = unit.model();
                let mut next: usize = k;
                let connector = if k < n {
                    match &tokens[k] {
                        Token::And => {
                            next = k + 1;
                            Connector::And
                        },
                        Token::Or => {
                            next = k + 1;
                            Connector::Or
                        },
                        Token::Semicolon => {
                            next = k + 1;
                            Connector::Sequence
                        },
                        _ => Connector::Sequence,
                    }
                } else {
                    Connector::Sequence
                };
                jobs.push(Job { unit, connector });
                assert(syntax::job_models(jobs@) =~= before.push(
                    syntax::JobModel { unit: m, connector },
                ));
                i = after_semicolons(tokens, next);
            },
        }
    }
    Ok((jobs, i))
}

/// Parses one unit.
fn parse_unit(tokens: &[Token], i: usize) -> (r: Result<(Unit, usize), String>)
    requires
        i <= tokens@.len(),
    ensures
        unit_model(r) == unit_at(tokenizer::token_models(tokens@), i as int),
        ends_in(r, i + 1, tokens@.len()),
    decreases tokens@.len() - i, 2nat,
{
    let n: usize = tokens.len();
    if is_word(tokens, i, "if") {
        match parse_if(tokens, i + 1) {
            Ok((chain, k)) => Ok((Unit::Compound(CompoundCommand::If(chain)), k)),
            Err(e) => Err(e),
        }
    } else if is_word(tokens, i, "for") {
        as_unit(parse_for(tokens, i + 1))
    } else if is_word(tokens, i, "while") {
        as_unit(parse_while(tokens, i + 1, false))
    } else if is_word(tokens, i, "until") {
        as_unit(parse_while(tokens, i + 1, true))
    } else if is_word(tokens, i, "case") {
        as_unit(parse_case(tokens, i + 1))
    } else if i < n && matches!(tokens[i], Token::Word(_)) && i + 1 < n && matches!(
        tokens[i + 1],
        Token::LParen
    ) {
        as_unit(parse_function(tokens, i))
    } else if is_left_brace(tokens, i) {
        match parse_group(tokens, i) {
            Ok((jobs, k)) => Ok((Unit::Group(jobs), k)),
            Err(e) => Err(e),
        }
    } else {
        match parse_pipeline(tokens, i) {
            Ok((p, k)) => Ok((Unit::Pipeline(p), k)),
            Err(e) => Err(e),
        }
    }
}

fn as_unit(r: Result<(CompoundCommand, usize), String>) -> (u: Result<(Unit, usize), String>)
    ensures
        unit_model(u) == compound_unit(compound_model(r)),
        forall|lo: int, len: nat| ends_in(r, lo, len) ==> #[trigger] ends_in(u, lo, len),
{
    match r {
        Ok((c, k)) => Ok((Unit::Compound(c), k)),
        Err(e) => Err(e),
    }
}

/// Parses `{ job; job; ... }`.
fn parse_group(tokens: &[Token], i: usize) -> (r: Result<(Vec<Job>, usize), String>)
    requires
        i <= tokens@.len(),
    ensures
        list_model(r) == group_at(tokenizer::token_models(tokens@), i as int),
        ends_in(r, i + 1, tokens@.len()),
    decreases tokens@.len() - i, 0nat,
{
    let n: usize = tokens.len();
    if !is_left_brace(tokens, i) {
        return Err("expected '{'".to_owned());
    }
    match parse_command_list(tokens, i + 1, Closer::Nothing) {
        Ok((jobs, k)) => {
            if k < n && matches!(tokens[k], Token::RBrace) {
                Ok((jobs, k + 1))
            } else {
                Err("expected '}' to close the group".to_owned())
            }
        },
        Err(e) => Err(e),
    }
}

/// Parses `name () { ...; }` or `name () command`. Nothing is run: the body is
/// kept for later.
fn parse_function(tokens: &[Token], i: usize) -> (r: Result<(CompoundCommand, usize), String>)
    requires
        i <= tokens@.len(),
    ensures
        compound_model(r) == function_at(tokenizer::token_models(tokens@), i as int),
        ends_in(r, i + 1, tokens@.len()),
    decreases tokens@.len() - i, 1nat,
{
    let n: usize = tokens.len();
    if i >= n {
        return Err("expected a function name".to_owned());
    }
    let name = match &tokens[i] {
        Token::Word(w) => w.clone(),
        _ => {
            return Err("expected a function name".to_owned());
        },
    };
    if !(i + 1 < n && matches!(tokens[i + 1], Token::LParen)) {
        let mut e = "expected '(' in function definition of '".to_owned();
        e.append(name.as_str());
        e.append("'");
        return Err(e);
    }
    if !(i + 2 < n && matches!(tokens[i + 2], Token::RParen)) {
        let mut e = "expected ')' in function definition of '".to_owned();
        e.append(name.as_str());
        e.append("'");
        return Err(e);
    }
    if is_left_brace(tokens, i + 3) {
        match parse_group(tokens, i + 3) {
            Ok((body, k)) => Ok((CompoundCommand::FunctionDef { name, body }, k)),
            Err(e) => Err(e),
        }
    } else {
        match parse_unit(tokens, i + 3) {
            Ok((unit, k)) => {
                let mut body: Vec<Job> = Vec::new();
                let ghost m = unit.model();
                body.push(Job { unit, connector: Connector::Sequence });
                assert(syntax::job_models(body@) =~= seq![
                    syntax::JobModel { unit: m, connector: Connector::Sequence },
                ]);
                Ok((CompoundCommand::FunctionDef { name, body }, k))
            },
            Err(e) => Err(e),
        }
    }
}

/// Parses an `if` chain from its first condition on.
fn parse_if(tokens: &[Token], from: usize) -> (r: Result<(IfChain, usize), String>)
    requires
        from <= tokens@.len(),
    ensures
        if_model(r) == if_from(tokenizer::token_models(tokens@), from as int, Seq::empty()),
        ends_in(r, from as int, tokens@.len()),
    decreases tokens@.len() - from, 5nat,
{
    let ghost ts = tokenizer::token_models(tokens@);
    let n: usize = tokens.len();
    let mut branches: Vec<(Vec<Job>, Vec<Job>)> = Vec::new();
    let mut i: usize = from;
    assert(syntax::branch_models(branches@) =~= Seq::empty());
    loop
        invariant
            n == tokens@.len(),
            from <= i <= n,
            ts == tokenizer::token_models(tokens@),
            if_from(ts, from as int, Seq::empty()) == if_from(
                ts,
                i as int,
                syntax::branch_models(branches@),
            ),
        decreases n - i,
    {
        let ghost before = syntax::branch_models(branches@);
        let (cond, k1) = match parse_command_list(tokens, i, Closer::Then) {
            Ok(x) => x,
            Err(e) => {
                return Err(e);
            },
        };
        let k2 = match expect_word(tokens, k1, "then") {
            Ok(x) => x,
            Err(e) => {
                return Err(e);
            },
        };
        let (body, k3) = match parse_command_list(tokens, k2, Closer::Branch) {
            Ok(x) => x,
            Err(e) => {
                return Err(e);
            },
        };
        let ghost pair = (syntax::job_models(cond@), syntax::job_models(body@));
        branches.push((cond, body));
        assert(syntax::branch_models(branches@) =~= before.push(pair));
        if is_word(tokens, k3, "elif") {
            i = k3 + 1;
        } else if is_word(tokens, k3, "else") {
            let (other, k4) = match parse_command_list(tokens, k3 + 1, Closer::Fi) {
                Ok(x) => x,
                Err(e) => {
                    return Err(e);
                },
            };
            return match expect_word(tokens, k4, "fi") {
                Ok(k) => Ok((IfChain { branches, else_body: Some(other) }, k)),
                Err(e) => Err(e),
            };
        } else {
            return match expect_word(tokens, k3, "fi") {
                Ok(k) => Ok((IfChain { branches, else_body: None }, k)),
                Err(e) => Err(e),
            };
        }
    }
}

/// Parses the part of a loop from `do` to `done`.
fn parse_loop_body(tokens: &[Token], i: usize) -> (r: Result<(Vec<Job>, usize), String>)
    requires
        i <= tokens@.len(),
    ensures
        list_model(r) == loop_body_at(tokenizer::token_models(tokens@), i as int),
        ends_in(r, i as int, tokens@.len()),
    decreases tokens@.len() - i, 5nat,
{
    match expect_word(tokens, i, "do") {
        Err(e) => Err(e),
        Ok(k1) => match parse_command_list(tokens, k1, Closer::Done) {
            Err(e) => Err(e),
            Ok((body, k2)) => match expect_word(tokens, k2, "done") {
                Err(e) => Err(e),
                Ok(k3) => Ok((body, k3)),
            },
        },
    }
}

fn parse_for_words(tokens: &[Token], from: usize) -> (r: (Vec<String>, usize))
    requires
        from <= tokens@.len(),
    ensures
        for_words(tokenizer::token_models(tokens@), from as int, Seq::empty()) == (
            text::texts(r.0@),
            r.1 as int,
        ),
        from <= r.1 <= tokens@.len(),
{
    let ghost ts = tokenizer::token_models(tokens@);
    let mut words: Vec<String> = Vec::new();
    let mut i: usize = from;
    assert(text::texts(words@) =~= Seq::empty());
    while i < tokens.len()
        invariant
            from <= i <= tokens@.len(),
            ts == tokenizer::token_models(tokens@),
            for_words(ts, from as int, Seq::empty()) == for_words(
                ts,
                i as int,
                text::texts(words@),
            ),
        decreases tokens@.len() - i,
    {
        match &tokens[i] {
            Token::Word(w) => {
                if same(w.as_str(), "do") {
                    return (words, i);
                }
                let ghost before = text::texts(words@);
                words.push(w.clone());
                assert(text::texts(words@) =~= before.push(w@));
                i += 1;
            },
            _ => {
                return (words, i);
            },
        }
    }
    (words, i)
}

/// Parses a `for` loop from its variable on.
fn parse_for(tokens: &[Token], i: usize) -> (r: Result<(CompoundCommand, usize), String>)
    requires
        i <= tokens@.len(),
    ensures
        compound_model(r) == for_at(tokenizer::token_models(tokens@), i as int),
        ends_in(r, i as int, tokens@.len()),
    decreases tokens@.len() - i, 6nat,
{
    let n: usize = tokens.len();
    let var = if i < n {
        match &tokens[i] {
            Token::Word(w) => w.clone(),
            _ => {
                return Err(found("expected a variable name after 'for', found ", tokens, i));
            },
        }
    } else {
        return Err(found("expected a variable name after 'for', found ", tokens, i));
    };
    match expect_word(tokens, i + 1, "in") {
        Err(e) => Err(e),
        Ok(k1) => {
            let (words, k2) = parse_for_words(tokens, k1);
            let k = after_semicolons(tokens, k2);
            match parse_loop_body(tokens, k) {
                Err(e) => Err(e),
                Ok((body, k3)) => Ok((CompoundCommand::For { var, words, body }, k3)),
            }
        },
    }
}

/// Parses a `while` or `until` loop from its condition on.
fn parse_while(tokens: &[Token], i: usize, until: bool) -> (r: Result<
    (CompoundCommand, usize),
    String,
>)
    requires
        i <= tokens@.len(),
    ensures
        compound_model(r) == while_at(tokenizer::token_models(tokens@), i as int, until),
        ends_in(r, i as int, tokens@.len()),
    decreases tokens@.len() - i, 6nat,
{
    match parse_command_list(tokens, i, Closer::Do) {
        Err(e) => Err(e),
        Ok((cond, k1)) => match parse_loop_body(tokens, k1) {
            Err(e) => Err(e),
            Ok((body, k2)) => Ok((CompoundCommand::While { cond, body, until }, k2)),
        },
    }
}

fn parse_patterns(tokens: &[Token], from: usize) -> (r: Result<(Vec<String>, usize), String>)
    requires
        from <= tokens@.len(),
    ensures
        texts_model(r) == patterns_from(
            tokenizer::token_models(tokens@),
            from as int,
            Seq::empty(),
        ),
        ends_in(r, from + 1, tokens@.len()),
{
    let ghost ts = tokenizer::token_models(tokens@);
    let n: usize = tokens.len();
    let mut patterns: Vec<String> = Vec::new();
    let mut i: usize = from;
    assert(text::texts(patterns@) =~= Seq::empty());
    loop
        invariant
            n == tokens@.len(),
            from <= i <= n,
            ts == tokenizer::token_models(tokens@),
            patterns_from(ts, from as int, Seq::empty()) == patterns_from(
                ts,
                i as int,
                text::texts(patterns@),
            ),
        decreases n - i,
    {
        if i >= n {
            return Err(found("expected a pattern in 'case', found ", tokens, i));
        }
        let ghost before = text::texts(patterns@);
        match &tokens[i] {
            Token::Word(w) => {
                patterns.push(w.clone());
                assert(text::texts(patterns@) =~= before.push(w@));
            },
            _ => {
                return Err(found("expected a pattern in 'case', found ", tokens, i));
            },
        }
        if i + 1 < n && matches!(tokens[i + 1], Token::Pipe) {
            i += 2;
        } else if i + 1 < n && matches!(tokens[i + 1], Token::RParen) {
            return Ok((patterns, i + 2));
        } else {
            return Err(found("expected '|' or ')' in 'case', found ", tokens, i + 1));
        }
    }
}

fn parse_arms(tokens: &[Token], from: usize) -> (r: Result<(Vec<CaseArm>, usize), String>)
    requires
        from <= tokens@.len(),
    ensures
        match r {
            Ok((v, k)) => arms_from(
                tokenizer::token_models(tokens@),
                from as int,
                Seq::empty(),
            ) == Ok::<(Seq<syntax::CaseArmModel>, int), Seq<char>>(
                (syntax::arm_models(v@), k as int),
            ),
            Err(e) => arms_from(tokenizer::token_models(tokens@), from as int, Seq::empty())
                == Err::<(Seq<syntax::CaseArmModel>, int), Seq<char>>(e@),
        },
        ends_in(r, from as int, tokens@.len()),
    decreases tokens@.len() - from, 5nat,
{
    let ghost ts = tokenizer::token_models(tokens@);
    let n: usize = tokens.len();
    let mut arms: Vec<CaseArm> = Vec::new();
    let mut i: usize = from;
    assert(syntax::arm_models(arms@) =~= Seq::empty());
    while !is_word(tokens, i, "esac")
        invariant
            n == tokens@.len(),
            from <= i <= n,
            ts == tokenizer::token_models(tokens@),
            arms_from(ts, from as int, Seq::empty()) == arms_from(
                ts,
                i as int,
                syntax::arm_models(arms@),
            ),
        decreases n - i,
    {
        if i >= n {
            return Err("expected 'esac' to close the 'case'".to_owned());
        }
        let (patterns, k1) = match parse_patterns(tokens, i) {
            Ok(x) => x,
            Err(e) => {
                return Err(e);
            },
        };
        let (body, k2) = match parse_command_list(tokens, k1, Closer::Esac) {
            Ok(x) => x,
            Err(e) => {
                return Err(e);
            },
        };
        let ghost before = syntax::arm_models(arms@);
        let ghost m = syntax::CaseArmModel {
            patterns: text::texts(patterns@),
            body: syntax::job_models(body@),
        };
        arms.push(CaseArm { patterns, body });
        assert(syntax::arm_models(arms@) =~= before.push(m));
        i = if k2 < n && matches!(tokens[k2], Token::CaseEnd) {
            k2 + 1
        } else {
            k2
        };
    }
    Ok((arms, i + 1))
}

/// Parses a `case` from its subject on.
fn parse_case(tokens: &[Token], i: usize) -> (r: Result<(CompoundCommand, usize), String>)
    requires
        i <= tokens@.len(),
    ensures
        compound_model(r) == case_at(tokenizer::token_models(tokens@), i as int),
        ends_in(r, i as int, tokens@.len()),
    decreases tokens@.len() - i, 6nat,
{
    let n: usize = tokens.len();
    let word = if i < n {
        match &tokens[i] {
            Token::Word(w) => w.clone(),
            _ => {
                return Err(found("expected a word after 'case', found ", tokens, i));
            },
        }
    } else {
        return Err(found("expected a word after 'case', found ", tokens, i));
    };
    match expect_word(tokens, i + 1, "in") {
        Err(e) => Err(e),
        Ok(k1) => {
            let k = after_semicolons(tokens, k1);
            match parse_arms(tokens, k) {
                Err(e) => Err(e),
                Ok((arms, k2)) => Ok((CompoundCommand::Case { word, arms }, k2)),
            }
        },
    }
}

/// Parses a whole sequence of tokens into jobs.
pub fn parse(tokens: Vec<Token>) -> (r: Result<Vec<Job>, String>)
    ensures
        match r {
            Ok(v) => jobs_of(tokenizer::token_models(tokens@)) == Ok::<
                Seq<syntax::JobModel>,
                Seq<char>,
            >(syntax::job_models(v@)),
            Err(e) => jobs_of(tokenizer::token_models(tokens@)) == Err::<
                Seq<syntax::JobModel>,
                Seq<char>,
            >(e@),
        },
{
    match parse_command_list(&tokens, 0, Closer::Nothing) {
        Err(e) => Err(e),
        Ok((jobs, k)) => {
            if k == tokens.len() {
                Ok(jobs)
            } else {
                let mut prefix = "unexpected token at position ".to_owned();
                prefix.append(u64_text(k as u64).as_str());
                prefix.append(": ");
                Err(found(prefix.as_str(), &tokens, k))
            }
        },
    }
}

} // verus!
