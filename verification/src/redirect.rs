//! Redirections: which files a command needs, and which of those that could be
//! opened it gets.

use crate::expand;
use crate::expand::strip_marks;
use crate::quoting;
use crate::report;
use crate::report::{complain, concat3, no_lines, Line};
use crate::syntax;
use crate::syntax::Redirect;
use crate::tokenizer::RedirectKind;
use crate::wordlaws;
use vstd::prelude::*;

verus! {

/// The standard stream that a redirection replaces.
#[derive(Debug, Clone, Copy, PartialEq, Eq, Structural)]
pub enum Stream {
    Input,
    Output,
    Error,
}

/// How a file is opened.
#[derive(Debug, Clone, Copy, PartialEq, Eq, Structural)]
pub enum OpenMode {
    /// For reading.
    Read,
    /// For writing, from the start, made if it is missing.
    Create,
    /// For writing at its end, made if it is missing.
    Append,
}

/// What a kind of redirection asks for. Here-documents ask for nothing.
pub open spec fn purpose_of(kind: RedirectKind) -> Option<(Stream, OpenMode)> {
    match kind {
        RedirectKind::In => Some((Stream::Input, OpenMode::Read)),
        RedirectKind::Out => Some((Stream::Output, OpenMode::Create)),
        RedirectKind::Append => Some((Stream::Output, OpenMode::Append)),
        RedirectKind::ErrOut => Some((Stream::Error, OpenMode::Create)),
        _ => None,
    }
}

/// What a kind of redirection asks for.
pub fn purpose(kind: RedirectKind) -> (r: Option<(Stream, OpenMode)>)
    ensures
        r == purpose_of(kind),
{
    match kind {
        RedirectKind::In => Some((Stream::Input, OpenMode::Read)),
        RedirectKind::Out => Some((Stream::Output, OpenMode::Create)),
        RedirectKind::Append => Some((Stream::Output, OpenMode::Append)),
        RedirectKind::ErrOut => Some((Stream::Error, OpenMode::Create)),
        _ => None,
    }
}

/// Redirections whose targets have lost their marks.
pub open spec fn plain(redirects: Seq<syntax::RedirectModel>) -> Seq<syntax::RedirectModel> {
    Seq::new(
        redirects.len(),
        |k: int|
            syntax::RedirectModel {
                kind: redirects[k].kind,
                target: expand::stripped(redirects[k].target),
            },
    )
}

/// Removes the marks of the targets: a quoted target is literal.
pub fn plain_redirects(redirects: &[Redirect]) -> (r: Vec<Redirect>)
    ensures
        syntax::redirect_models(r@) == plain(syntax::redirect_models(redirects@)),
{
    let ghost all = syntax::redirect_models(redirects@);
    let mut out: Vec<Redirect> = Vec::new();
    let mut i: usize = 0;
    while i < redirects.len()
        invariant
            i <= redirects@.len(),
            all == syntax::redirect_models(redirects@),
            out@.len() == i,
            forall|k: int| 0 <= k < i ==> (#[trigger] out@[k]).model() == plain(all)[k],
        decreases redirects@.len() - i,
    {
        assert(all[i as int] == redirects@[i as int].model());
        out.push(
            Redirect {
                kind: redirects[i].kind,
                target: strip_marks(redirects[i].target.as_str()),
            },
        );
        i += 1;
    }
    assert(syntax::redirect_models(out@) =~= plain(all));
    out
}

/// The `i`th redirection was opened for `stream`.
pub open spec fn serves(
    redirects: Seq<syntax::RedirectModel>,
    i: int,
    opened: Seq<bool>,
    stream: Stream,
) -> bool {
    &&& i < opened.len() && opened[i]
    &&& purpose_of(redirects[i].kind) matches Some((s, _)) && s == stream
}

/// The last of the first `n` redirections that was opened for `stream`.
pub open spec fn chosen(
    redirects: Seq<syntax::RedirectModel>,
    n: int,
    opened: Seq<bool>,
    stream: Stream,
) -> Option<int>
    decreases n,
{
    if n <= 0 {
        None
    } else if serves(redirects, n - 1, opened, stream) {
        Some(n - 1)
    } else {
        chosen(redirects, n - 1, opened, stream)
    }
}

/// The redirection that a stream of a command goes by, given which of them
/// could be opened: the last one of those.
pub fn chosen_redirect(redirects: &[Redirect], opened: &[bool], stream: Stream) -> (r: Option<
    usize,
>)
    ensures
        match r {
            Some(i) => i < redirects@.len() && chosen(
                syntax::redirect_models(redirects@),
                redirects@.len() as int,
                opened@,
                stream,
            ) == Some(i as int),
            None => chosen(
                syntax::redirect_models(redirects@),
                redirects@.len() as int,
                opened@,
                stream,
            ) is None,
        },
{
    let ghost all = syntax::redirect_models(redirects@);
    let mut n: usize = redirects.len();
    while n > 0
        invariant
            n <= redirects@.len(),
            all == syntax::redirect_models(redirects@),
            chosen(all, redirects@.len() as int, opened@, stream) == chosen(
                all,
                n as int,
                opened@,
                stream,
            ),
        decreases n,
    {
        assert(all[n - 1] == redirects@[n - 1].model());
        if n - 1 < opened.len() && opened[n - 1] {
            match purpose(redirects[n - 1].kind) {
                Some((s, _)) => {
                    if s == stream {
                        return Some(n - 1);
                    }
                },
                None => {},
            }
        }
        n -= 1;
    }
    None
}

/// The diagnostics for those of the first `n` redirections that stand for an
/// input that could not be opened. Outputs fail in silence.
pub open spec fn open_failures(
    redirects: Seq<syntax::RedirectModel>,
    n: int,
    opened: Seq<bool>,
) -> Seq<report::LineModel>
    decreases n,
{
    if n <= 0 {
        Seq::empty()
    } else if redirects[n - 1].kind == RedirectKind::In && !(n - 1 < opened.len() && opened[n
        - 1]) {
        open_failures(redirects, n - 1, opened).push(
            report::complained("rsh: "@ + redirects[n - 1].target + ": no such file"@),
        )
    } else {
        open_failures(redirects, n - 1, opened)
    }
}

/// The diagnostics for inputs that could not be opened.
pub fn redirect_failures(redirects: &[Redirect], opened: &[bool]) -> (lines: Vec<Line>)
    ensures
        report::line_models(lines@) == open_failures(
            syntax::redirect_models(redirects@),
            redirects@.len() as int,
            opened@,
        ),
{
    let ghost all = syntax::redirect_models(redirects@);
    let mut lines = no_lines();
    let mut i: usize = 0;
    while i < redirects.len()
        invariant
            i <= redirects@.len(),
            all == syntax::redirect_models(redirects@),
            report::line_models(lines@) == open_failures(all, i as int, opened@),
        decreases redirects@.len() - i,
    {
        assert(all[i as int] == redirects@[i as int].model());
        if redirects[i].kind == RedirectKind::In && !(i < opened.len() && opened[i]) {
            complain(
                &mut lines,
                concat3("rsh: ", redirects[i].target.as_str(), ": no such file"),
            );
        }
        i += 1;
    }
    lines
}

/// The position of the first `>` or `>>` at or after `i`.
pub open spec fn output_from(redirects: Seq<syntax::RedirectModel>, i: int) -> Option<int>
    decreases redirects.len() - i,
{
    if i < 0 || i >= redirects.len() {
        None
    } else if redirects[i].kind == RedirectKind::Out || redirects[i].kind == RedirectKind::Append {
        Some(i)
    } else {
        output_from(redirects, i + 1)
    }
}

/// The first `>` or `>>`.
pub open spec fn first_output(redirects: Seq<syntax::RedirectModel>) -> Option<
    syntax::RedirectModel,
> {
    match output_from(redirects, 0) {
        Some(i) => Some(redirects[i]),
        None => None,
    }
}

/// The redirection that a builtin or a function goes by: its first `>` or
/// `>>`. Other redirections have no effect on them.
pub fn output_redirect(redirects: &[Redirect]) -> (r: Option<Redirect>)
    ensures
        match r {
            Some(x) => first_output(syntax::redirect_models(redirects@)) == Some(x.model()),
            None => first_output(syntax::redirect_models(redirects@)) is None,
        },
{
    let ghost all = syntax::redirect_models(redirects@);
    let mut i: usize = 0;
    while i < redirects.len()
        invariant
            i <= redirects@.len(),
            all == syntax::redirect_models(redirects@),
            output_from(all, 0) == output_from(all, i as int),
        decreases redirects@.len() - i,
    {
        assert(all[i as int] == redirects@[i as int].model());
        if redirects[i].kind == RedirectKind::Out || redirects[i].kind == RedirectKind::Append {
            return Some(Redirect { kind: redirects[i].kind, target: redirects[i].target.clone() });
        }
        i += 1;
    }
    None
}

/// Of the kinds of redirection exactly `<` is opened for reading, exactly `>>`
/// for appending, and exactly `>` and `2>` for writing from the start. `<`
/// replaces the input, `>` and `>>` the output, `2>` the errors, and a
/// here-document nothing.
pub proof fn law_file_redirections(kind: RedirectKind)
    ensures
        kind == RedirectKind::In <==> (purpose_of(kind) matches Some((_, mode)) && mode
            == OpenMode::Read),
        kind == RedirectKind::Append <==> (purpose_of(kind) matches Some((_, mode)) && mode
            == OpenMode::Append),
        kind == RedirectKind::Out || kind == RedirectKind::ErrOut <==> (purpose_of(
            kind,
        ) matches Some((_, mode)) && mode == OpenMode::Create),
        kind == RedirectKind::In <==> (purpose_of(kind) matches Some((stream, _)) && stream
            == Stream::Input),
        kind == RedirectKind::Out || kind == RedirectKind::Append <==> (purpose_of(
            kind,
        ) matches Some((stream, _)) && stream == Stream::Output),
        kind == RedirectKind::ErrOut <==> (purpose_of(kind) matches Some((stream, _)) && stream
            == Stream::Error),
{
}

/// A redirection of this kind replaces the stream.
pub open spec fn replaces(kind: RedirectKind, stream: Stream) -> bool {
    match stream {
        Stream::Input => kind == RedirectKind::In,
        Stream::Output => kind == RedirectKind::Out || kind == RedirectKind::Append,
        Stream::Error => kind == RedirectKind::ErrOut,
    }
}

proof fn lemma_chosen(
    redirects: Seq<syntax::RedirectModel>,
    n: int,
    opened: Seq<bool>,
    stream: Stream,
)
    requires
        0 <= n <= redirects.len(),
    ensures
        match chosen(redirects, n, opened, stream) {
            Some(i) => {
                &&& 0 <= i < n && i < opened.len() && opened[i]
                &&& replaces(redirects[i].kind, stream)
                &&& forall|k: int|
                    i < k < n && k < opened.len() && opened[k] ==> !replaces(
                        (#[trigger] redirects[k]).kind,
                        stream,
                    )
            },
            None => forall|k: int|
                0 <= k < n && k < opened.len() && opened[k] ==> !replaces(
                    (#[trigger] redirects[k]).kind,
                    stream,
                ),
        },
    decreases n,
{
    if n > 0 {
        law_file_redirections(redirects[n - 1].kind);
        if !serves(redirects, n - 1, opened, stream) {
            lemma_chosen(redirects, n - 1, opened, stream);
        }
    }
}

/// A stream goes by the last of its redirections that could be opened: that
/// one was opened and replaces the stream, none behind it did both, and there
/// is none only where no redirection of the stream could be opened.
pub proof fn law_last_redirection_wins(
    redirects: Seq<syntax::RedirectModel>,
    opened: Seq<bool>,
    stream: Stream,
)
    ensures
        match chosen(redirects, redirects.len() as int, opened, stream) {
            Some(i) => {
                &&& 0 <= i < redirects.len() && i < opened.len() && opened[i]
                &&& replaces(redirects[i].kind, stream)
                &&& forall|k: int|
                    i < k < redirects.len() && k < opened.len() && opened[k] ==> !replaces(
                        (#[trigger] redirects[k]).kind,
                        stream,
                    )
            },
            None => forall|k: int|
                0 <= k < redirects.len() && k < opened.len() && opened[k] ==> !replaces(
                    (#[trigger] redirects[k]).kind,
                    stream,
                ),
        },
{
    lemma_chosen(redirects, redirects.len() as int, opened, stream);
}

/// A redirection behind the others adds a diagnostic exactly if it is a `<`
/// that was not opened, and the diagnostic names its target; the others keep
/// theirs. No redirection, no diagnostic.
pub proof fn law_missing_inputs(
    redirects: Seq<syntax::RedirectModel>,
    r: syntax::RedirectModel,
    opened: Seq<bool>,
    ok: bool,
)
    requires
        opened.len() == redirects.len(),
    ensures
        open_failures(Seq::empty(), 0, Seq::empty()) == Seq::<report::LineModel>::empty(),
        ({
            let before = open_failures(redirects, redirects.len() as int, opened);
            let after = open_failures(
                redirects.push(r),
                (redirects.len() + 1) as int,
                opened.push(ok),
            );
            if r.kind == RedirectKind::In && !ok {
                &&& after.len() == before.len() + 1
                &&& after.drop_last() == before
                &&& after.last().error
                &&& after.last().text == "rsh: "@ + r.target + ": no such file\n"@
            } else {
                after == before
            }
        }),
{
    let more = redirects.push(r);
    let n = redirects.len() as int;
    lemma_failures_prefix(redirects, r, opened, ok, n);
    reveal_strlit(": no such file");
    reveal_strlit(": no such file\n");
    assert(": no such file\n"@ =~= ": no such file"@.push('\n'));
    let before = open_failures(redirects, n, opened);
    let after = open_failures(more, n + 1, opened.push(ok));
    if r.kind == RedirectKind::In && !ok {
        assert(after.drop_last() =~= before);
        assert(after.last().text =~= "rsh: "@ + r.target + ": no such file\n"@);
    }
}

proof fn lemma_failures_prefix(
    redirects: Seq<syntax::RedirectModel>,
    r: syntax::RedirectModel,
    opened: Seq<bool>,
    ok: bool,
    n: int,
)
    requires
        opened.len() == redirects.len(),
        0 <= n <= redirects.len(),
    ensures
        open_failures(redirects.push(r), n, opened.push(ok)) == open_failures(redirects, n, opened),
    decreases n,
{
    if n > 0 {
        lemma_failures_prefix(redirects, r, opened, ok, n - 1);
        assert(redirects.push(r)[n - 1] == redirects[n - 1]);
        assert(opened.push(ok)[n - 1] == opened[n - 1]);
    }
}

pub proof fn lemma_output_from(redirects: Seq<syntax::RedirectModel>, i: int)
    requires
        0 <= i <= redirects.len(),
    ensures
        match output_from(redirects, i) {
            Some(k) => {
                &&& i <= k < redirects.len()
                &&& redirects[k].kind == RedirectKind::Out || redirects[k].kind
                    == RedirectKind::Append
                &&& forall|j: int|
                    i <= j < k ==> (#[trigger] redirects[j]).kind != RedirectKind::Out
                        && redirects[j].kind != RedirectKind::Append
            },
            None => forall|j: int|
                i <= j < redirects.len() ==> (#[trigger] redirects[j]).kind != RedirectKind::Out
                    && redirects[j].kind != RedirectKind::Append,
        },
    decreases redirects.len() - i,
{
    if i < redirects.len() {
        lemma_output_from(redirects, i + 1);
    }
}

/// A builtin or a function goes by its first `>` or `>>`, whatever stands
/// before and behind it, and by nothing where there is none.
pub proof fn law_first_output(
    before: Seq<syntax::RedirectModel>,
    r: syntax::RedirectModel,
    behind: Seq<syntax::RedirectModel>,
)
    requires
        forall|k: int|
            0 <= k < before.len() ==> (#[trigger] before[k]).kind != RedirectKind::Out
                && before[k].kind != RedirectKind::Append,
    ensures
        first_output(before) is None,
        r.kind == RedirectKind::Out || r.kind == RedirectKind::Append ==> first_output(
            before + seq![r] + behind,
        ) == Some(r),
{
    lemma_output_from(before, 0);
    let all = before + seq![r] + behind;
    lemma_output_from(all, 0);
    assert(all[before.len() as int] == r);
    assert forall|k: int| 0 <= k < before.len() implies all[k] == #[trigger] before[k] by {}
}

/// Taking the marks off the targets keeps every redirection, its place and its
/// kind; a target whose characters stand for themselves stays as it is.
pub proof fn law_targets_lose_marks(redirects: Seq<syntax::RedirectModel>, k: int)
    requires
        0 <= k < redirects.len(),
    ensures
        plain(redirects).len() == redirects.len(),
        plain(redirects)[k].kind == redirects[k].kind,
        plain(redirects)[k].target == expand::stripped(redirects[k].target),
        quoting::markless(redirects[k].target) ==> plain(redirects)[k].target
            == redirects[k].target,
{
    if quoting::markless(redirects[k].target) {
        let t = redirects[k].target;
        wordlaws::lemma_strip_markless(t, 0, Seq::empty());
        assert(Seq::empty() + t.skip(0) =~= t);
    }
}

} // verus!
