//! Laws of the lexical analysis: what is read at one place of a text does not
//! depend on what stands around it, and a newline separates.

use crate::quoting;
use crate::tokenizer;
use crate::tokenizer::MARK;
use vstd::prelude::*;

verus! {

// ---------------------------------------------------------------------------
// A text within another one.
// ---------------------------------------------------------------------------

proof fn lemma_after_within(pre: Seq<char>, x: Seq<char>, post: Seq<char>, j: int)
    requires
        0 <= j <= x.len(),
    ensures
        ({
            let s = pre + x + post;
            let p = pre.len() as int;
            &&& tokenizer::after_single(x, j) < x.len() ==> tokenizer::after_single(s, p + j) == p
                + tokenizer::after_single(x, j)
            &&& tokenizer::after_double(x, j) < x.len() ==> tokenizer::after_double(s, p + j) == p
                + tokenizer::after_double(x, j)
        }),
    decreases x.len() - j,
{
    let s = pre + x + post;
    let p = pre.len() as int;
    if j < x.len() {
        assert(s[p + j] == x[j]);
        lemma_after_within(pre, x, post, j + 1);
        if j + 1 < x.len() {
            lemma_after_within(pre, x, post, j + 2);
        }
    }
}

/// A command substitution that is closed within a text is closed at the same
/// place wherever the text stands.
pub proof fn lemma_subst_within(
    pre: Seq<char>,
    x: Seq<char>,
    post: Seq<char>,
    j: int,
    depth: nat,
)
    requires
        0 <= j <= x.len(),
        tokenizer::subst_end(x, j, depth) is Some,
    ensures
        tokenizer::subst_end(pre + x + post, pre.len() + j, depth) == Some(
            pre.len() + tokenizer::subst_end(x, j, depth)->0,
        ),
    decreases x.len() - j,
{
    let s = pre + x + post;
    let p = pre.len() as int;
    assert(s[p + j] == x[j]);
    tokenizer::lemma_after_quotes(x, j + 1);
    tokenizer::lemma_after_quotes(s, p + j + 1);
    let c = x[j];
    if c == '\\' {
        lemma_subst_within(pre, x, post, j + 2, depth);
    } else if c == '\'' {
        lemma_after_within(pre, x, post, j + 1);
        lemma_subst_within(pre, x, post, tokenizer::after_single(x, j + 1), depth);
    } else if c == '"' {
        lemma_after_within(pre, x, post, j + 1);
        lemma_subst_within(pre, x, post, tokenizer::after_double(x, j + 1), depth);
    } else if c == '(' {
        lemma_subst_within(pre, x, post, j + 1, depth + 1);
    } else if c == ')' {
        if depth > 1 {
            lemma_subst_within(pre, x, post, j + 1, (depth - 1) as nat);
        }
    } else {
        lemma_subst_within(pre, x, post, j + 1, depth);
    }
}

proof fn lemma_single_within(x: Seq<char>, post: Seq<char>, i: int, w: Seq<char>)
    requires
        0 <= i <= x.len(),
        tokenizer::single_from(x, i, w) is Some,
    ensures
        tokenizer::single_from(x + post, i, w) == tokenizer::single_from(x, i, w),
    decreases x.len() - i,
{
    assert((x + post)[i] == x[i]);
    if x[i] != '\'' {
        lemma_single_within(x, post, i + 1, w + tokenizer::literal(x[i]));
    }
}

proof fn lemma_backtick_within(x: Seq<char>, post: Seq<char>, i: int, w: Seq<char>)
    requires
        0 <= i <= x.len(),
        tokenizer::backtick_from(x, i, w) is Some,
    ensures
        tokenizer::backtick_from(x + post, i, w) == tokenizer::backtick_from(x, i, w),
    decreases x.len() - i,
{
    assert((x + post)[i] == x[i]);
    if x[i] == '`' {
    } else if x[i] == '\\' && i + 1 < x.len() {
        assert((x + post)[i + 1] == x[i + 1]);
        lemma_backtick_within(x, post, i + 2, w.push(x[i + 1]));
    } else {
        lemma_backtick_within(x, post, i + 1, w.push(x[i]));
    }
}

/// Where double quotes read on from `i`, what follows the text closes none of
/// the `$(` that the text leaves open.
pub open spec fn double_settled(x: Seq<char>, post: Seq<char>, i: int) -> bool
    decreases x.len() - i,
{
    proof {
        if i >= 0 {
            tokenizer::lemma_subst_end(x, i + 2, 1);
        }
    }
    if i < 0 || i >= x.len() || x[i] == '"' {
        true
    } else if x[i] == '\\' && tokenizer::double_escapes(x, i + 1) {
        double_settled(x, post, i + 2)
    } else if tokenizer::opens_command(x, i) {
        match tokenizer::subst_end(x, i + 2, 1) {
            Some(end) => double_settled(x, post, end + 1),
            None => tokenizer::subst_end(x + post, i + 2, 1) is None && double_settled(
                x,
                post,
                i + 1,
            ),
        }
    } else {
        double_settled(x, post, i + 1)
    }
}

/// So it is in the word that reads on from `i`, `w` being what was read before.
pub open spec fn word_settled(x: Seq<char>, post: Seq<char>, i: int, w: Seq<char>) -> bool
    decreases x.len() - i,
{
    if i < 0 || i >= x.len() || tokenizer::ends_word(x[i]) {
        true
    } else {
        proof {
            tokenizer::lemma_word_piece_bounds(x, i, w);
        }
        &&& x[i] == '"' ==> double_settled(x, post, i + 1)
        &&& match tokenizer::word_piece(x, i, w) {
            Ok((v, k)) => word_settled(x, post, k, v),
            Err(_) => true,
        }
    }
}

/// So it is in the words from `i` on.
pub open spec fn settled_from(x: Seq<char>, post: Seq<char>, i: int) -> bool
    decreases x.len() - i,
{
    if i < 0 || i >= x.len() {
        true
    } else {
        proof {
            tokenizer::lemma_lex_progress(x, i);
        }
        match tokenizer::lex_at(x, i) {
            tokenizer::LexedModel::Blank(k) => settled_from(x, post, k),
            tokenizer::LexedModel::Tok(t, k) => {
                &&& t is Word ==> word_settled(x, post, i, Seq::empty())
                &&& settled_from(x, post, k)
            },
            _ => true,
        }
    }
}

/// What follows a text closes no `$(` that stands in double quotes within it
/// and that it leaves open.
pub open spec fn settled(x: Seq<char>, post: Seq<char>) -> bool {
    settled_from(x, post, 0)
}

proof fn lemma_double_within(x: Seq<char>, post: Seq<char>, i: int, w: Seq<char>)
    requires
        0 <= i <= x.len(),
        tokenizer::double_from(x, i, w) is Some,
        double_settled(x, post, i),
    ensures
        tokenizer::double_from(x + post, i, w) == tokenizer::double_from(x, i, w),
    decreases x.len() - i,
{
    let s = x + post;
    assert(s[i] == x[i]);
    tokenizer::lemma_subst_end(x, i + 2, 1);
    tokenizer::lemma_subst_end(s, i + 2, 1);
    if i + 1 < x.len() {
        assert(s[i + 1] == x[i + 1]);
    }
    if i + 2 < x.len() {
        assert(s[i + 2] == x[i + 2]);
    }
    if x[i] == '"' {
    } else if x[i] == '\\' && tokenizer::double_escapes(x, i + 1) {
        lemma_double_within(x, post, i + 2, w + tokenizer::literal(x[i + 1]));
    } else if tokenizer::opens_command(x, i) && tokenizer::subst_end(x, i + 2, 1) is Some {
        let end = tokenizer::subst_end(x, i + 2, 1)->0;
        lemma_subst_within(Seq::empty(), x, post, i + 2, 1);
        assert(Seq::<char>::empty() + x + post =~= s);
        assert(s.subrange(i + 1, end + 1) =~= x.subrange(i + 1, end + 1));
        lemma_double_within(
            x,
            post,
            end + 1,
            w + seq!['$', MARK] + x.subrange(i + 1, end + 1),
        );
    } else if tokenizer::opens_param(x, i) {
        lemma_double_within(x, post, i + 1, w + seq!['$', MARK]);
    } else {
        let v = w + tokenizer::double_quoted(x[i]);
        if i + 1 == x.len() {
            assert(tokenizer::double_from(x, i + 1, v) is None);
        }
        if i + 2 == x.len() && x[i] == '$' && x[i + 1] == '(' {
            assert(tokenizer::double_from(x, i + 2, v + tokenizer::double_quoted('(')) is None);
            assert(tokenizer::double_from(x, i + 1, v) is None);
        }
        lemma_double_within(x, post, i + 1, v);
    }
}

/// A word reads the same with another line behind its text.
proof fn lemma_word_within(x: Seq<char>, post: Seq<char>, i: int, w: Seq<char>)
    requires
        0 <= i <= x.len(),
        quoting::free_of(x, '\\'),
        post.len() > 0,
        post[0] == '\n',
        tokenizer::word_from(x, i, w) is Ok,
        word_settled(x, post, i, w),
    ensures
        tokenizer::word_from(x + post, i, w) == tokenizer::word_from(x, i, w),
    decreases x.len() - i,
{
    let s = x + post;
    if i == x.len() {
        assert(s[i] == post[0]);
    } else {
        assert(s[i] == x[i]);
        if !tokenizer::ends_word(x[i]) {
            tokenizer::lemma_word_piece_bounds(x, i, w);
            tokenizer::lemma_word_piece_bounds(s, i, w);
            if i + 1 < x.len() {
                assert(s[i + 1] == x[i + 1]);
            } else {
                assert(s[i + 1] == post[0]);
            }
            if i + 2 < x.len() {
                assert(s[i + 2] == x[i + 2]);
            } else if i + 2 == x.len() {
                assert(s[i + 2] == post[0]);
            }
            if x[i] == '\'' {
                lemma_single_within(x, post, i + 1, w);
            } else if x[i] == '"' {
                lemma_double_within(x, post, i + 1, w);
            } else if x[i] == '`' {
                lemma_backtick_within(x, post, i + 1, Seq::empty());
            } else if tokenizer::opens_subst(x, i) {
                let end = tokenizer::subst_end(x, i + 2, 1)->0;
                tokenizer::lemma_subst_end(x, i + 2, 1);
                lemma_subst_within(Seq::empty(), x, post, i + 2, 1);
                assert(Seq::<char>::empty() + x + post =~= s);
                assert(s.subrange(i, end + 1) =~= x.subrange(i, end + 1));
            } else if tokenizer::count_mark(x, i) > 0 {
                let n = tokenizer::count_mark(x, i);
                assert(s.subrange(i, i + n) =~= x.subrange(i, i + n));
            }
            assert(tokenizer::word_piece(s, i, w) == tokenizer::word_piece(x, i, w));
            let (v, k) = tokenizer::word_piece(x, i, w)->Ok_0;
            lemma_word_within(x, post, k, v);
        }
    }
}

/// Tokens read the same with another line behind their text.
proof fn lemma_tokens_within(
    x: Seq<char>,
    post: Seq<char>,
    i: int,
    acc: Seq<tokenizer::TokenModel>,
)
    requires
        0 <= i <= x.len(),
        quoting::free_of(x, '#'),
        quoting::free_of(x, '\\'),
        quoting::free_of(x, '<'),
        quoting::free_of(x, '>'),
        post.len() > 0,
        post[0] == '\n',
        tokenizer::tokens_from(x, i, acc) is Ok,
        settled_from(x, post, i),
    ensures
        tokenizer::tokens_from(x + post, i, acc) == tokenizer::tokens_from(
            x + post,
            x.len() as int,
            tokenizer::tokens_from(x, i, acc)->Ok_0,
        ),
    decreases x.len() - i,
{
    let s = x + post;
    if i < x.len() {
        assert(s[i] == x[i]);
        if i + 1 < x.len() {
            assert(s[i + 1] == x[i + 1]);
        } else {
            assert(s[i + 1] == post[0]);
        }
        tokenizer::lemma_lex_progress(x, i);
        tokenizer::lemma_lex_progress(s, i);
        if tokenizer::word_from(x, i, Seq::empty()) is Ok && word_settled(
            x,
            post,
            i,
            Seq::empty(),
        ) {
            lemma_word_within(x, post, i, Seq::empty());
        }
        assert(tokenizer::lex_at(s, i) == tokenizer::lex_at(x, i));
        match tokenizer::lex_at(x, i) {
            tokenizer::LexedModel::Blank(k) => {
                lemma_tokens_within(x, post, k, acc);
            },
            tokenizer::LexedModel::Tok(t, k) => {
                lemma_tokens_within(x, post, k, acc.push(t));
            },
            _ => {},
        }
    }
}

// ---------------------------------------------------------------------------
// A text behind another one.
// ---------------------------------------------------------------------------

proof fn lemma_after_behind(pre: Seq<char>, y: Seq<char>, j: int)
    requires
        0 <= j <= y.len(),
    ensures
        tokenizer::after_single(pre + y, pre.len() + j) == pre.len() + tokenizer::after_single(
            y,
            j,
        ),
        tokenizer::after_double(pre + y, pre.len() + j) == pre.len() + tokenizer::after_double(
            y,
            j,
        ),
    decreases y.len() - j,
{
    if j < y.len() {
        assert((pre + y)[pre.len() + j] == y[j]);
        lemma_after_behind(pre, y, j + 1);
        if j + 1 < y.len() {
            lemma_after_behind(pre, y, j + 2);
        }
    }
}

/// The extent of a command substitution does not depend on what stands before
/// it.
pub proof fn lemma_subst_behind(pre: Seq<char>, y: Seq<char>, j: int, depth: nat)
    requires
        0 <= j,
    ensures
        tokenizer::subst_end(pre + y, pre.len() + j, depth) == match tokenizer::subst_end(
            y,
            j,
            depth,
        ) {
            Some(k) => Some(pre.len() + k),
            None => None,
        },
    decreases y.len() - j,
{
    if j < y.len() {
        assert((pre + y)[pre.len() + j] == y[j]);
        tokenizer::lemma_after_quotes(y, j + 1);
        tokenizer::lemma_after_quotes(pre + y, pre.len() + j + 1);
        let c = y[j];
        if c == '\\' {
            if j + 1 < y.len() {
                lemma_subst_behind(pre, y, j + 2, depth);
            }
        } else if c == '\'' {
            lemma_after_behind(pre, y, j + 1);
            lemma_subst_behind(pre, y, tokenizer::after_single(y, j + 1), depth);
        } else if c == '"' {
            lemma_after_behind(pre, y, j + 1);
            lemma_subst_behind(pre, y, tokenizer::after_double(y, j + 1), depth);
        } else if c == '(' {
            lemma_subst_behind(pre, y, j + 1, depth + 1);
        } else if c == ')' {
            if depth > 1 {
                lemma_subst_behind(pre, y, j + 1, (depth - 1) as nat);
            }
        } else {
            lemma_subst_behind(pre, y, j + 1, depth);
        }
    }
}

/// A reading, its position moved by `p`.
spec fn moved(r: Option<(Seq<char>, int)>, p: int) -> Option<(Seq<char>, int)> {
    match r {
        Some((w, k)) => Some((w, p + k)),
        None => None,
    }
}

/// A reading that may fail, its position moved by `p`.
spec fn moved_word(r: Result<(Seq<char>, int), Seq<char>>, p: int) -> Result<
    (Seq<char>, int),
    Seq<char>,
> {
    match r {
        Ok((w, k)) => Ok((w, p + k)),
        Err(e) => Err(e),
    }
}

/// What stands at a position, the next position moved by `p`.
spec fn moved_lexed(l: tokenizer::LexedModel, p: int) -> tokenizer::LexedModel {
    match l {
        tokenizer::LexedModel::Blank(k) => tokenizer::LexedModel::Blank(p + k),
        tokenizer::LexedModel::Tok(t, k) => tokenizer::LexedModel::Tok(t, p + k),
        _ => l,
    }
}

proof fn lemma_single_behind(pre: Seq<char>, y: Seq<char>, i: int, w: Seq<char>)
    requires
        0 <= i,
    ensures
        tokenizer::single_from(pre + y, pre.len() + i, w) == moved(
            tokenizer::single_from(y, i, w),
            pre.len() as int,
        ),
    decreases y.len() - i,
{
    if i < y.len() {
        assert((pre + y)[pre.len() + i] == y[i]);
        lemma_single_behind(pre, y, i + 1, w + tokenizer::literal(y[i]));
    }
}

proof fn lemma_backtick_behind(pre: Seq<char>, y: Seq<char>, i: int, w: Seq<char>)
    requires
        0 <= i,
    ensures
        tokenizer::backtick_from(pre + y, pre.len() + i, w) == moved(
            tokenizer::backtick_from(y, i, w),
            pre.len() as int,
        ),
    decreases y.len() - i,
{
    if i < y.len() {
        assert((pre + y)[pre.len() + i] == y[i]);
        if y[i] == '\\' && i + 1 < y.len() {
            assert((pre + y)[pre.len() + i + 1] == y[i + 1]);
            lemma_backtick_behind(pre, y, i + 2, w.push(y[i + 1]));
        } else {
            lemma_backtick_behind(pre, y, i + 1, w.push(y[i]));
        }
    }
}

proof fn lemma_double_behind(pre: Seq<char>, y: Seq<char>, i: int, w: Seq<char>)
    requires
        0 <= i,
    ensures
        tokenizer::double_from(pre + y, pre.len() + i, w) == moved(
            tokenizer::double_from(y, i, w),
            pre.len() as int,
        ),
    decreases y.len() - i,
{
    let s = pre + y;
    let p = pre.len() as int;
    if i < y.len() {
        assert(s[p + i] == y[i]);
        if i + 1 < y.len() {
            assert(s[p + i + 1] == y[i + 1]);
        }
        if i + 2 < y.len() {
            assert(s[p + i + 2] == y[i + 2]);
        }
        tokenizer::lemma_subst_end(y, i + 2, 1);
        tokenizer::lemma_subst_end(s, p + i + 2, 1);
        lemma_subst_behind(pre, y, i + 2, 1);
        assert(tokenizer::opens_command(s, p + i) == tokenizer::opens_command(y, i));
        assert(tokenizer::opens_param(s, p + i) == tokenizer::opens_param(y, i));
        assert(tokenizer::double_escapes(s, p + i + 1) == tokenizer::double_escapes(y, i + 1));
        if y[i] == '"' {
        } else if y[i] == '\\' && tokenizer::double_escapes(y, i + 1) {
            lemma_double_behind(pre, y, i + 2, w + tokenizer::literal(y[i + 1]));
        } else if tokenizer::opens_command(y, i) && tokenizer::subst_end(y, i + 2, 1) is Some {
            let end = tokenizer::subst_end(y, i + 2, 1)->0;
            assert(s.subrange(p + i + 1, p + end + 1) =~= y.subrange(i + 1, end + 1));
            lemma_double_behind(
                pre,
                y,
                end + 1,
                w + seq!['$', MARK] + y.subrange(i + 1, end + 1),
            );
        } else if tokenizer::opens_param(y, i) {
            lemma_double_behind(pre, y, i + 1, w + seq!['$', MARK]);
        } else {
            lemma_double_behind(pre, y, i + 1, w + tokenizer::double_quoted(y[i]));
        }
    }
}

proof fn lemma_word_behind(pre: Seq<char>, y: Seq<char>, i: int, w: Seq<char>)
    requires
        0 <= i,
    ensures
        tokenizer::word_from(pre + y, pre.len() + i, w) == moved_word(
            tokenizer::word_from(y, i, w),
            pre.len() as int,
        ),
    decreases y.len() - i,
{
    let s = pre + y;
    let p = pre.len() as int;
    if i < y.len() {
        assert(s[p + i] == y[i]);
        if !tokenizer::ends_word(y[i]) {
            if i + 1 < y.len() {
                assert(s[p + i + 1] == y[i + 1]);
            }
            if i + 2 < y.len() {
                assert(s[p + i + 2] == y[i + 2]);
            }
            tokenizer::lemma_word_piece_bounds(y, i, w);
            tokenizer::lemma_word_piece_bounds(s, p + i, w);
            lemma_single_behind(pre, y, i + 1, w);
            lemma_double_behind(pre, y, i + 1, w);
            lemma_backtick_behind(pre, y, i + 1, Seq::empty());
            lemma_subst_behind(pre, y, i + 2, 1);
            tokenizer::lemma_subst_end(y, i + 2, 1);
            if let Some(end) = tokenizer::subst_end(y, i + 2, 1) {
                assert(s.subrange(p + i, p + end + 1) =~= y.subrange(i, end + 1));
            }
            let n = tokenizer::count_mark(y, i);
            assert(tokenizer::count_mark(s, p + i) == n);
            assert(s.subrange(p + i, p + i + n) =~= y.subrange(i, i + n));
            assert(tokenizer::word_piece(s, p + i, w) == moved_word(
                tokenizer::word_piece(y, i, w),
                p,
            ));
            if let Ok((v, k)) = tokenizer::word_piece(y, i, w) {
                lemma_word_behind(pre, y, k, v);
            }
        }
    }
}

proof fn lemma_blank_behind(pre: Seq<char>, y: Seq<char>, i: int)
    requires
        0 <= i,
    ensures
        tokenizer::skip_blank(pre + y, pre.len() + i) == pre.len() + tokenizer::skip_blank(y, i),
        tokenizer::line_end(pre + y, pre.len() + i) == pre.len() + tokenizer::line_end(y, i),
    decreases y.len() - i,
{
    if i < y.len() {
        assert((pre + y)[pre.len() + i] == y[i]);
        lemma_blank_behind(pre, y, i + 1);
    }
}

proof fn lemma_redirect_behind(
    pre: Seq<char>,
    y: Seq<char>,
    kind: tokenizer::RedirectKind,
    i: int,
)
    requires
        0 <= i <= y.len(),
    ensures
        tokenizer::redirect_at(pre + y, kind, pre.len() + i) == moved_lexed(
            tokenizer::redirect_at(y, kind, i),
            pre.len() as int,
        ),
        tokenizer::heredoc_at(pre + y, kind, pre.len() + i) == moved_lexed(
            tokenizer::heredoc_at(y, kind, i),
            pre.len() as int,
        ),
{
    let s = pre + y;
    let p = pre.len() as int;
    lemma_blank_behind(pre, y, i);
    tokenizer::lemma_skip_blank(y, i);
    lemma_word_behind(pre, y, tokenizer::skip_blank(y, i), Seq::empty());
    tokenizer::lemma_word_bounds(y, tokenizer::skip_blank(y, i), Seq::empty());
    if let Ok((_, k)) = tokenizer::spaced_word(y, i) {
        assert(s.subrange(p + i, p + k) =~= y.subrange(i, k));
    }
}

proof fn lemma_lex_behind(pre: Seq<char>, y: Seq<char>, i: int)
    requires
        0 <= i < y.len(),
    ensures
        tokenizer::lex_at(pre + y, pre.len() + i) == moved_lexed(
            tokenizer::lex_at(y, i),
            pre.len() as int,
        ),
{
    let s = pre + y;
    let p = pre.len() as int;
    assert(s[p + i] == y[i]);
    if i + 1 < y.len() {
        assert(s[p + i + 1] == y[i + 1]);
        lemma_redirect_behind(pre, y, tokenizer::RedirectKind::HereDoc, i + 2);
        lemma_redirect_behind(pre, y, tokenizer::RedirectKind::Append, i + 2);
        lemma_redirect_behind(pre, y, tokenizer::RedirectKind::ErrOut, i + 2);
    }
    if i + 2 < y.len() {
        assert(s[p + i + 2] == y[i + 2]);
        lemma_redirect_behind(pre, y, tokenizer::RedirectKind::HereDocStrip, i + 3);
    }
    lemma_redirect_behind(pre, y, tokenizer::RedirectKind::Out, i + 1);
    lemma_redirect_behind(pre, y, tokenizer::RedirectKind::In, i + 1);
    lemma_blank_behind(pre, y, i);
    lemma_word_behind(pre, y, i, Seq::empty());
}

/// The tokens of a text do not depend on what was read before it.
proof fn lemma_tokens_behind(
    pre: Seq<char>,
    y: Seq<char>,
    i: int,
    before: Seq<tokenizer::TokenModel>,
    acc: Seq<tokenizer::TokenModel>,
)
    requires
        0 <= i <= y.len(),
    ensures
        tokenizer::tokens_from(pre + y, pre.len() + i, before + acc)
            == match tokenizer::tokens_from(y, i, acc) {
            Ok(b) => Ok(before + b),
            Err(e) => Err(e),
        },
    decreases y.len() - i,
{
    if i < y.len() {
        tokenizer::lemma_lex_progress(y, i);
        tokenizer::lemma_lex_progress(pre + y, pre.len() + i);
        lemma_lex_behind(pre, y, i);
        match tokenizer::lex_at(y, i) {
            tokenizer::LexedModel::Blank(k) => {
                lemma_tokens_behind(pre, y, k, before, acc);
            },
            tokenizer::LexedModel::Tok(t, k) => {
                lemma_tokens_behind(pre, y, k, before, acc.push(t));
                assert((before + acc).push(t) =~= before + acc.push(t));
            },
            _ => {},
        }
    }
}

// ---------------------------------------------------------------------------
// The extent of a word.
// ---------------------------------------------------------------------------

/// What is never closed at `k`, by the diagnostic for it.
pub open spec fn unclosed(s: Seq<char>, k: int) -> Option<Seq<char>> {
    if s[k] == '\'' && tokenizer::single_from(s, k + 1, Seq::empty()) is None {
        Some("unclosed single quote"@)
    } else if s[k] == '"' && tokenizer::double_from(s, k + 1, Seq::empty()) is None {
        Some("unclosed double quote"@)
    } else if s[k] == '`' && tokenizer::backtick_from(s, k + 1, Seq::empty()) is None {
        Some("unclosed backtick (`)"@)
    } else if tokenizer::opens_subst(s, k) && tokenizer::subst_end(s, k + 2, 1) is None {
        Some("unclosed $(...)"@)
    } else {
        None
    }
}

/// Whether quotes are closed does not depend on what was read before.
proof fn lemma_closed(s: Seq<char>, i: int, v: Seq<char>, w: Seq<char>)
    requires
        0 <= i,
    ensures
        tokenizer::single_from(s, i, v) is None == tokenizer::single_from(s, i, w) is None,
        tokenizer::double_from(s, i, v) is None == tokenizer::double_from(s, i, w) is None,
    decreases s.len() - i,
{
    if i < s.len() {
        let c = tokenizer::literal(s[i]);
        let d = tokenizer::double_quoted(s[i]);
        let m = seq!['$', MARK];
        lemma_closed(s, i + 1, v + c, w + c);
        lemma_closed(s, i + 1, v + d, w + d);
        lemma_closed(s, i + 1, v + m, w + m);
        if i + 1 < s.len() {
            let e = tokenizer::literal(s[i + 1]);
            lemma_closed(s, i + 2, v + e, w + e);
        }
        tokenizer::lemma_subst_end(s, i + 2, 1);
        if let Some(end) = tokenizer::subst_end(s, i + 2, 1) {
            let part = s.subrange(i + 1, end + 1);
            lemma_closed(s, end + 1, v + m + part, w + m + part);
        }
    }
}

/// A word ends at the end of the text or before a character that ends words.
/// Where it cannot be read, a quote, a backquote or a `$(` outside of quotes
/// is never closed.
pub proof fn law_word_extent(s: Seq<char>, i: int, w: Seq<char>)
    requires
        0 <= i <= s.len(),
    ensures
        match tokenizer::word_from(s, i, w) {
            Ok((_, k)) => i <= k <= s.len() && (k == s.len() || tokenizer::ends_word(s[k])),
            Err(e) => exists|k: int| i <= k < s.len() && #[trigger] unclosed(s, k) == Some(e),
        },
    decreases s.len() - i,
{
    if i < s.len() && !tokenizer::ends_word(s[i]) {
        tokenizer::lemma_word_piece_bounds(s, i, w);
        match tokenizer::word_piece(s, i, w) {
            Ok((v, k)) => {
                law_word_extent(s, k, v);
            },
            Err(e) => {
                lemma_closed(s, i + 1, w, Seq::empty());
                assert(unclosed(s, i) == Some(e));
            },
        }
    }
}

// ---------------------------------------------------------------------------
// The law of newlines.
// ---------------------------------------------------------------------------

/// A newline between two texts separates their tokens as `;` does. The first
/// text ends neither in a comment nor in a backslash, no redirection in it
/// waits for its target, and the second text closes no `$(` that the first one
/// leaves open within double quotes.
pub proof fn law_newlines(
    x: Seq<char>,
    y: Seq<char>,
    a: Seq<tokenizer::TokenModel>,
    b: Seq<tokenizer::TokenModel>,
)
    requires
        tokenizer::tokens_of(x) == Ok::<Seq<tokenizer::TokenModel>, Seq<char>>(a),
        tokenizer::tokens_of(y) == Ok::<Seq<tokenizer::TokenModel>, Seq<char>>(b),
        quoting::free_of(x, '#'),
        quoting::free_of(x, '\\'),
        quoting::free_of(x, '<'),
        quoting::free_of(x, '>'),
        settled(x, seq!['\n'] + y),
    ensures
        tokenizer::tokens_of(x + seq!['\n'] + y) == Ok::<Seq<tokenizer::TokenModel>, Seq<char>>(
            a + seq![tokenizer::TokenModel::Semicolon] + b,
        ),
{
    let post = seq!['\n'] + y;
    let s = x + seq!['\n'] + y;
    let pre = x + seq!['\n'];
    let none = Seq::<tokenizer::TokenModel>::empty();
    assert(s =~= x + post);
    lemma_tokens_within(x, post, 0, none);
    assert(s[x.len() as int] == '\n');
    assert(tokenizer::tokens_from(s, x.len() as int, a) == tokenizer::tokens_from(
        s,
        (x.len() + 1) as int,
        a.push(tokenizer::TokenModel::Semicolon),
    ));
    let before = a.push(tokenizer::TokenModel::Semicolon);
    lemma_tokens_behind(pre, y, 0, before, none);
    assert(before + none =~= before);
    assert(before + b =~= a + seq![tokenizer::TokenModel::Semicolon] + b);
}

} // verus!
