//! Laws of quoting: what quotes, escapes and command output protect reaches a
//! command unchanged.

use crate::arith;
use crate::expand;
use crate::pattern;
use crate::redirect;
use crate::syntax;
use crate::text;
use crate::tokenizer;
use crate::tokenizer::{RedirectKind, MARK};
use vstd::prelude::*;

verus! {

// ---------------------------------------------------------------------------
// Marked texts.
// ---------------------------------------------------------------------------

/// A character, marked if `marks` says so.
pub open spec fn encoded_char(c: char, marks: spec_fn(char) -> bool) -> Seq<char> {
    if marks(c) {
        seq![MARK, c]
    } else {
        seq![c]
    }
}

/// The text `t[i..]` with the characters that `marks` picks marked.
pub open spec fn encoded_from(t: Seq<char>, i: int, marks: spec_fn(char) -> bool) -> Seq<char>
    decreases t.len() - i,
{
    if i < 0 || i >= t.len() {
        Seq::empty()
    } else {
        encoded_char(t[i], marks) + encoded_from(t, i + 1, marks)
    }
}

/// A text with the characters that `marks` picks marked.
pub open spec fn encoded(t: Seq<char>, marks: spec_fn(char) -> bool) -> Seq<char> {
    encoded_from(t, 0, marks)
}

/// The characters that literal text has marked.
pub open spec fn literal_marks() -> spec_fn(char) -> bool {
    |c: char| tokenizer::literal_special(c)
}

/// The characters that are marked in the output of a command.
pub open spec fn output_marks() -> spec_fn(char) -> bool {
    |c: char| expand::output_special(c)
}

/// No mark occurs in a text.
pub open spec fn markless(t: Seq<char>) -> bool {
    forall|k: int| 0 <= k < t.len() ==> #[trigger] t[k] != MARK
}

/// Every mark of a text is marked itself.
pub open spec fn covers_marks(t: Seq<char>, marks: spec_fn(char) -> bool) -> bool {
    forall|k: int| 0 <= k < t.len() && #[trigger] t[k] == MARK ==> marks(MARK)
}

/// Every pattern character of a text is marked.
pub open spec fn covers_globs(t: Seq<char>, marks: spec_fn(char) -> bool) -> bool {
    forall|k: int| 0 <= k < t.len() && expand::glob_char(#[trigger] t[k]) ==> marks(t[k])
}

/// Every `$` of a text is marked.
pub open spec fn covers_dollars(t: Seq<char>, marks: spec_fn(char) -> bool) -> bool {
    forall|k: int| 0 <= k < t.len() && #[trigger] t[k] == '$' ==> marks('$')
}

/// All whitespace of a text is marked.
pub open spec fn covers_spaces(t: Seq<char>, marks: spec_fn(char) -> bool) -> bool {
    forall|k: int| 0 <= k < t.len() && text::whitespace(#[trigger] t[k]) ==> marks(t[k])
}

/// A scan that begins behind `pre` meets the next character of the text.
pub proof fn lemma_next(s: Seq<char>, pre: Seq<char>, t: Seq<char>, i: int, marks: spec_fn(char) -> bool)
    requires
        s == pre + encoded_from(t, i, marks),
        0 <= i < t.len(),
    ensures
        s == (pre + encoded_char(t[i], marks)) + encoded_from(t, i + 1, marks),
        marks(t[i]) ==> s.len() > pre.len() + 1 && s[pre.len() as int] == MARK && s[(pre.len()
            + 1) as int] == t[i],
        !marks(t[i]) ==> s.len() > pre.len() && s[pre.len() as int] == t[i],
{
    assert(s =~= (pre + encoded_char(t[i], marks)) + encoded_from(t, i + 1, marks));
}

/// The removal of marks undoes the marking.
pub proof fn lemma_strip(
    s: Seq<char>,
    pre: Seq<char>,
    t: Seq<char>,
    i: int,
    marks: spec_fn(char) -> bool,
    acc: Seq<char>,
)
    requires
        s == pre + encoded_from(t, i, marks),
        0 <= i <= t.len(),
        covers_marks(t, marks),
    ensures
        expand::stripped_from(s, pre.len() as int, acc) == acc + t.skip(i),
    decreases t.len() - i,
{
    if i == t.len() {
        assert(acc + t.skip(i) =~= acc);
    } else {
        lemma_next(s, pre, t, i, marks);
        lemma_strip(s, pre + encoded_char(t[i], marks), t, i + 1, marks, acc.push(t[i]));
        assert(acc.push(t[i]) + t.skip(i + 1) =~= acc + t.skip(i));
    }
}

proof fn lemma_no_globs(
    s: Seq<char>,
    pre: Seq<char>,
    t: Seq<char>,
    i: int,
    marks: spec_fn(char) -> bool,
)
    requires
        s == pre + encoded_from(t, i, marks),
        0 <= i <= t.len(),
        covers_marks(t, marks),
        covers_globs(t, marks),
    ensures
        !expand::globs_from(s, pre.len() as int),
    decreases t.len() - i,
{
    if i < t.len() {
        lemma_next(s, pre, t, i, marks);
        lemma_no_globs(s, pre + encoded_char(t[i], marks), t, i + 1, marks);
    }
}

proof fn lemma_one_run(
    s: Seq<char>,
    pre: Seq<char>,
    t: Seq<char>,
    i: int,
    marks: spec_fn(char) -> bool,
    cur: Seq<char>,
    acc: Seq<Seq<char>>,
)
    requires
        s == pre + encoded_from(t, i, marks),
        0 <= i <= t.len(),
        covers_marks(t, marks),
        covers_spaces(t, marks),
    ensures
        expand::runs_from(s, pre.len() as int, cur, acc) == expand::closed_run(
            cur + encoded_from(t, i, marks),
            acc,
        ),
    decreases t.len() - i,
{
    if i == t.len() {
        assert(cur + encoded_from(t, i, marks) =~= cur);
    } else {
        lemma_next(s, pre, t, i, marks);
        let next = if marks(t[i]) {
            cur.push(MARK).push(t[i])
        } else {
            cur.push(t[i])
        };
        lemma_one_run(s, pre + encoded_char(t[i], marks), t, i + 1, marks, next, acc);
        assert(next + encoded_from(t, i + 1, marks) =~= cur + encoded_from(t, i, marks));
    }
}

pub proof fn lemma_unsubstituted(
    s: Seq<char>,
    pre: Seq<char>,
    t: Seq<char>,
    i: int,
    marks: spec_fn(char) -> bool,
    outputs: Seq<Seq<char>>,
    n: int,
    acc: Seq<char>,
    found: Seq<Seq<char>>,
)
    requires
        s == pre + encoded_from(t, i, marks),
        0 <= i <= t.len(),
        covers_marks(t, marks),
        covers_dollars(t, marks),
    ensures
        expand::substituted_from(s, pre.len() as int, outputs, n, acc) == acc + encoded_from(
            t,
            i,
            marks,
        ),
        expand::commands_from(s, pre.len() as int, found) == found,
    decreases t.len() - i,
{
    if i == t.len() {
        assert(acc + encoded_from(t, i, marks) =~= acc);
    } else {
        lemma_next(s, pre, t, i, marks);
        let e = encoded_char(t[i], marks);
        let j = pre.len() as int;
        lemma_unsubstituted(s, pre + e, t, i + 1, marks, outputs, n, acc + e, found);
        assert(s.subrange(j, j + e.len()) =~= e);
        assert(acc + e + encoded_from(t, i + 1, marks) =~= acc + encoded_from(t, i, marks));
    }
}

pub proof fn lemma_unexpanded(
    s: Seq<char>,
    pre: Seq<char>,
    t: Seq<char>,
    i: int,
    marks: spec_fn(char) -> bool,
    sc: arith::Scope,
    status: int,
    acc: Seq<char>,
)
    requires
        s == pre + encoded_from(t, i, marks),
        0 <= i <= t.len(),
        covers_marks(t, marks),
        covers_dollars(t, marks),
    ensures
        expand::expanded_from(s, pre.len() as int, acc, sc, status) == (
            acc + encoded_from(t, i, marks),
            sc.vars,
        ),
    decreases t.len() - i,
{
    if i == t.len() {
        assert(acc + encoded_from(t, i, marks) =~= acc);
    } else {
        lemma_next(s, pre, t, i, marks);
        let e = encoded_char(t[i], marks);
        let j = pre.len() as int;
        lemma_unexpanded(s, pre + e, t, i + 1, marks, sc, status, acc + e);
        assert(s.subrange(j, j + e.len()) =~= e);
        assert(acc + e + encoded_from(t, i + 1, marks) =~= acc + encoded_from(t, i, marks));
        assert(arith::Scope { vars: sc.vars, positional: sc.positional } == sc);
    }
}

proof fn lemma_pattern(
    s: Seq<char>,
    pre: Seq<char>,
    t: Seq<char>,
    i: int,
    marks: spec_fn(char) -> bool,
)
    requires
        s == pre + encoded_from(t, i, marks),
        0 <= i <= t.len(),
        covers_marks(t, marks),
        covers_globs(t, marks),
    ensures
        expand::pattern_from(s, pre.len() as int, pattern::escaped(t.take(i)))
            == pattern::escaped(t),
    decreases t.len() - i,
{
    if i == t.len() {
        assert(t.take(i) =~= t);
    } else {
        lemma_next(s, pre, t, i, marks);
        assert(t.take(i + 1).drop_last() =~= t.take(i));
        assert(t.take(i + 1).last() == t[i]);
        assert(pattern::escaped(t.take(i + 1)) == pattern::escaped(t.take(i))
            + expand::pattern_literal(t[i]));
        if !marks(t[i]) {
            assert(pattern::escaped(t.take(i)) + seq![t[i]] =~= pattern::escaped(
                t.take(i),
            ).push(t[i]));
        }
        lemma_pattern(s, pre + encoded_char(t[i], marks), t, i + 1, marks);
    }
}

// ---------------------------------------------------------------------------
// Laws of marked texts.
// ---------------------------------------------------------------------------

/// A word whose pattern characters and whitespace are marked is one piece.
pub proof fn lemma_marked_plan(
    t: Seq<char>,
    marks: spec_fn(char) -> bool,
    command: bool,
    paths: Seq<Seq<char>>,
)
    requires
        t.len() > 0,
        covers_marks(t, marks),
        covers_globs(t, marks),
        covers_spaces(t, marks),
    ensures
        expand::plan_words(expand::plan_of(encoded(t, marks), command), paths) == seq![t],
{
    let w = encoded(t, marks);
    let none = Seq::<char>::empty();
    assert(w =~= none + encoded_from(t, 0, marks));
    lemma_next(w, none, t, 0, marks);
    lemma_strip(w, none, t, 0, marks, none);
    assert(none + t.skip(0) =~= t);
    lemma_no_globs(w, none, t, 0, marks);
    lemma_one_run(w, none, t, 0, marks, none, Seq::empty());
    assert(none + encoded_from(t, 0, marks) =~= w);
    assert(expand::fields(w) =~= seq![t]);
    assert(expand::plan_words(expand::plan_of(w, command), paths) =~= seq![t]);
}

/// Marks that cover what is special in a text protect it: no command is
/// substituted, nothing is expanded, and the word ends up as exactly the text,
/// in one piece, whatever the state and the file system hold.
pub proof fn law_marked_text_is_literal(
    t: Seq<char>,
    marks: spec_fn(char) -> bool,
    outputs: Seq<Seq<char>>,
    sc: arith::Scope,
    status: int,
    command: bool,
    paths: Seq<Seq<char>>,
)
    requires
        t.len() > 0,
        covers_marks(t, marks),
        covers_globs(t, marks),
        covers_dollars(t, marks),
        covers_spaces(t, marks),
        t[0] == '~' ==> marks('~'),
    ensures
        expand::commands_of(encoded(t, marks)) == Seq::<Seq<char>>::empty(),
        expand::resolved(encoded(t, marks), outputs, sc, status) == (encoded(t, marks), sc.vars),
        expand::plan_words(expand::plan_of(encoded(t, marks), command), paths) == seq![t],
{
    let w = encoded(t, marks);
    let none = Seq::<char>::empty();
    assert(w =~= none + encoded_from(t, 0, marks));
    lemma_next(w, none, t, 0, marks);
    lemma_unsubstituted(w, none, t, 0, marks, outputs, 0, none, Seq::empty());
    assert(none + encoded_from(t, 0, marks) =~= w);
    lemma_unexpanded(w, none, t, 0, marks, sc, status, none);
    lemma_marked_plan(t, marks, command, paths);
}

/// A marked text, as a pattern of a `case`, is the text and nothing else.
pub proof fn law_marked_pattern_is_literal(t: Seq<char>, marks: spec_fn(char) -> bool)
    requires
        covers_marks(t, marks),
        covers_globs(t, marks),
    ensures
        expand::pattern_of(encoded(t, marks)) == pattern::escaped(t),
{
    let none = Seq::<char>::empty();
    assert(encoded(t, marks) =~= none + encoded_from(t, 0, marks));
    assert(t.take(0) =~= none);
    lemma_pattern(encoded(t, marks), none, t, 0, marks);
}

/// What double quotes protect is marked like literal text.
pub proof fn lemma_protected(t: Seq<char>)
    ensures
        expand::protected(t) == encoded(t, literal_marks()),
{
    lemma_protected_prefix(t, t.len() as int);
    assert(t.take(t.len() as int) =~= t);
    assert(expand::protected(t) + encoded_from(t, t.len() as int, literal_marks())
        =~= expand::protected(t));
}

proof fn lemma_protected_prefix(t: Seq<char>, k: int)
    requires
        0 <= k <= t.len(),
    ensures
        encoded(t, literal_marks()) == expand::protected(t.take(k)) + encoded_from(
            t,
            k,
            literal_marks(),
        ),
    decreases k,
{
    let marks = literal_marks();
    if k == 0 {
        assert(t.take(0) =~= Seq::empty());
        assert(encoded(t, marks) =~= expand::protected(t.take(0)) + encoded_from(t, 0, marks));
    } else {
        lemma_protected_prefix(t, k - 1);
        assert(t.take(k).drop_last() =~= t.take(k - 1));
        assert(expand::protected(t.take(k)) == expand::protected(t.take(k - 1)) + encoded_char(
            t[k - 1],
            marks,
        ));
        assert(expand::protected(t.take(k - 1)) + encoded_from(t, k - 1, marks)
            =~= expand::protected(t.take(k)) + encoded_from(t, k, marks));
    }
}

pub proof fn lemma_output_encoding(t: Seq<char>, k: int)
    requires
        0 <= k <= t.len(),
    ensures
        encoded_from(t, 0, output_marks()) == expand::marked_output(t.take(k)) + encoded_from(
            t,
            k,
            output_marks(),
        ),
    decreases k,
{
    if k == 0 {
        assert(t.take(0) =~= Seq::empty());
        assert(encoded_from(t, 0, output_marks()) =~= expand::marked_output(t.take(0))
            + encoded_from(t, 0, output_marks()));
    } else {
        lemma_output_encoding(t, k - 1);
        assert(t.take(k).drop_last() =~= t.take(k - 1));
        assert(expand::marked_output(t.take(k)) == expand::marked_output(t.take(k - 1))
            + encoded_char(t[k - 1], output_marks()));
        assert(expand::marked_output(t.take(k - 1)) + encoded_from(t, k - 1, output_marks())
            =~= expand::marked_output(t.take(k)) + encoded_from(t, k, output_marks()));
    }
}

/// A marked text, as the target of a redirection, is the text.
pub proof fn law_marked_target_is_literal(
    t: Seq<char>,
    marks: spec_fn(char) -> bool,
    kind: RedirectKind,
)
    requires
        covers_marks(t, marks),
    ensures
        redirect::plain(seq![syntax::RedirectModel { kind, target: encoded(t, marks) }]) == seq![
            syntax::RedirectModel { kind, target: t },
        ],
{
    let none = Seq::<char>::empty();
    let w = encoded(t, marks);
    assert(w =~= none + encoded_from(t, 0, marks));
    lemma_strip(w, none, t, 0, marks, none);
    assert(none + t.skip(0) =~= t);
    assert(redirect::plain(seq![syntax::RedirectModel { kind, target: w }]) =~= seq![
        syntax::RedirectModel { kind, target: t },
    ]);
}

/// The output of a command is neither expanded nor globbed again, and its
/// marks come off to the output itself.
pub proof fn law_output_is_literal(
    t: Seq<char>,
    outputs: Seq<Seq<char>>,
    sc: arith::Scope,
    status: int,
)
    requires
        markless(t),
    ensures
        expand::stripped(expand::marked_output(t)) == t,
        expand::expanded(expand::marked_output(t), sc, status) == (
            expand::marked_output(t),
            sc.vars,
        ),
        !expand::globs_from(expand::marked_output(t), 0),
        expand::tilde(expand::marked_output(t), sc.vars.env) == expand::marked_output(t),
{
    let marks = output_marks();
    let none = Seq::<char>::empty();
    let w = expand::marked_output(t);
    lemma_output_encoding(t, t.len() as int);
    assert(t.take(t.len() as int) =~= t);
    assert(w =~= none + encoded_from(t, 0, marks));
    lemma_strip(w, none, t, 0, marks, none);
    assert(none + t.skip(0) =~= t);
    lemma_unexpanded(w, none, t, 0, marks, sc, status, none);
    assert(none + encoded_from(t, 0, marks) =~= w);
    lemma_no_globs(w, none, t, 0, marks);
    if t.len() > 0 {
        lemma_next(w, none, t, 0, marks);
    }
}

// ---------------------------------------------------------------------------
// Laws of quotes.
// ---------------------------------------------------------------------------

/// A character does not occur in a text.
pub open spec fn free_of(t: Seq<char>, c: char) -> bool {
    forall|k: int| 0 <= k < t.len() ==> #[trigger] t[k] != c
}

/// A text within the given quote characters.
pub open spec fn quoted(q: char, t: Seq<char>) -> Seq<char> {
    seq![q] + t + seq![q]
}

proof fn lemma_single(t: Seq<char>, i: int, w: Seq<char>)
    requires
        free_of(t, '\''),
        0 <= i <= t.len(),
    ensures
        tokenizer::single_from(quoted('\'', t), i + 1, w) == Some(
            (w + encoded_from(t, i, literal_marks()), (t.len() + 2) as int),
        ),
    decreases t.len() - i,
{
    let s = quoted('\'', t);
    if i == t.len() {
        assert(s[i + 1] == '\'');
        assert(w + encoded_from(t, i, literal_marks()) =~= w);
    } else {
        assert(s[i + 1] == t[i]);
        let e = tokenizer::literal(t[i]);
        lemma_single(t, i + 1, w + e);
        assert(w + e + encoded_from(t, i + 1, literal_marks()) =~= w + encoded_from(
            t,
            i,
            literal_marks(),
        ));
    }
}

proof fn lemma_double(t: Seq<char>, i: int, w: Seq<char>)
    requires
        free_of(t, '"'),
        free_of(t, '\\'),
        free_of(t, '$'),
        0 <= i <= t.len(),
    ensures
        tokenizer::double_from(quoted('"', t), i + 1, w) == Some(
            (w + encoded_from(t, i, literal_marks()), (t.len() + 2) as int),
        ),
    decreases t.len() - i,
{
    let s = quoted('"', t);
    if i == t.len() {
        assert(s[i + 1] == '"');
        assert(w + encoded_from(t, i, literal_marks()) =~= w);
    } else {
        assert(s[i + 1] == t[i]);
        let e = tokenizer::double_quoted(t[i]);
        lemma_double(t, i + 1, w + e);
        assert(w + e + encoded_from(t, i + 1, literal_marks()) =~= w + encoded_from(
            t,
            i,
            literal_marks(),
        ));
    }
}

/// Single quotes are literal through and through: the text between them is one
/// word, and reaches the command as it is.
pub proof fn law_single_quotes(
    t: Seq<char>,
    outputs: Seq<Seq<char>>,
    sc: arith::Scope,
    status: int,
    command: bool,
    paths: Seq<Seq<char>>,
)
    requires
        t.len() > 0,
        free_of(t, '\''),
    ensures
        tokenizer::tokens_of(quoted('\'', t)) == Ok::<Seq<tokenizer::TokenModel>, Seq<char>>(
            seq![tokenizer::TokenModel::Word(encoded(t, literal_marks()))],
        ),
        expand::commands_of(encoded(t, literal_marks())) == Seq::<Seq<char>>::empty(),
        expand::resolved(encoded(t, literal_marks()), outputs, sc, status) == (
            encoded(t, literal_marks()),
            sc.vars,
        ),
        expand::plan_words(expand::plan_of(encoded(t, literal_marks()), command), paths) == seq![t],
{
    let s = quoted('\'', t);
    let none = Seq::<char>::empty();
    lemma_single(t, 0, none);
    assert(none + encoded_from(t, 0, literal_marks()) =~= encoded(t, literal_marks()));
    assert(s[0] == '\'');
    reveal_with_fuel(tokenizer::word_from, 2);
    reveal_with_fuel(tokenizer::tokens_from, 2);
    assert(tokenizer::tokens_of(s) == Ok::<Seq<tokenizer::TokenModel>, Seq<char>>(
        Seq::empty().push(tokenizer::TokenModel::Word(encoded(t, literal_marks()))),
    ));
    assert(Seq::empty().push(tokenizer::TokenModel::Word(encoded(t, literal_marks()))) =~= seq![
        tokenizer::TokenModel::Word(encoded(t, literal_marks())),
    ]);
    law_marked_text_is_literal(t, literal_marks(), outputs, sc, status, command, paths);
}

/// Double quotes protect everything but `$`, `"` and `\`: a text without these
/// is one word between them, and reaches the command as it is.
pub proof fn law_double_quotes(
    t: Seq<char>,
    outputs: Seq<Seq<char>>,
    sc: arith::Scope,
    status: int,
    command: bool,
    paths: Seq<Seq<char>>,
)
    requires
        t.len() > 0,
        free_of(t, '"'),
        free_of(t, '\\'),
        free_of(t, '$'),
    ensures
        tokenizer::tokens_of(quoted('"', t)) == Ok::<Seq<tokenizer::TokenModel>, Seq<char>>(
            seq![tokenizer::TokenModel::Word(encoded(t, literal_marks()))],
        ),
        expand::commands_of(encoded(t, literal_marks())) == Seq::<Seq<char>>::empty(),
        expand::resolved(encoded(t, literal_marks()), outputs, sc, status) == (
            encoded(t, literal_marks()),
            sc.vars,
        ),
        expand::plan_words(expand::plan_of(encoded(t, literal_marks()), command), paths) == seq![t],
{
    let s = quoted('"', t);
    let none = Seq::<char>::empty();
    lemma_double(t, 0, none);
    assert(none + encoded_from(t, 0, literal_marks()) =~= encoded(t, literal_marks()));
    assert(s[0] == '"');
    reveal_with_fuel(tokenizer::word_from, 2);
    reveal_with_fuel(tokenizer::tokens_from, 2);
    assert(tokenizer::tokens_of(s) == Ok::<Seq<tokenizer::TokenModel>, Seq<char>>(
        Seq::empty().push(tokenizer::TokenModel::Word(encoded(t, literal_marks()))),
    ));
    assert(Seq::empty().push(tokenizer::TokenModel::Word(encoded(t, literal_marks()))) =~= seq![
        tokenizer::TokenModel::Word(encoded(t, literal_marks())),
    ]);
    law_marked_text_is_literal(t, literal_marks(), outputs, sc, status, command, paths);
}

/// A backslash makes the character behind it literal.
pub proof fn law_backslash(
    c: char,
    outputs: Seq<Seq<char>>,
    sc: arith::Scope,
    status: int,
    command: bool,
    paths: Seq<Seq<char>>,
)
    ensures
        tokenizer::tokens_of(seq!['\\', c]) == Ok::<Seq<tokenizer::TokenModel>, Seq<char>>(
            seq![tokenizer::TokenModel::Word(tokenizer::literal(c))],
        ),
        expand::commands_of(tokenizer::literal(c)) == Seq::<Seq<char>>::empty(),
        expand::resolved(tokenizer::literal(c), outputs, sc, status) == (
            tokenizer::literal(c),
            sc.vars,
        ),
        expand::plan_words(expand::plan_of(tokenizer::literal(c), command), paths) == seq![
            seq![c],
        ],
{
    let s = seq!['\\', c];
    let t = seq![c];
    reveal_with_fuel(tokenizer::word_from, 2);
    reveal_with_fuel(tokenizer::tokens_from, 2);
    assert(Seq::empty() + tokenizer::literal(c) =~= tokenizer::literal(c));
    assert(tokenizer::tokens_of(s) == Ok::<Seq<tokenizer::TokenModel>, Seq<char>>(
        Seq::empty().push(tokenizer::TokenModel::Word(tokenizer::literal(c))),
    ));
    assert(Seq::empty().push(tokenizer::TokenModel::Word(tokenizer::literal(c))) =~= seq![
        tokenizer::TokenModel::Word(tokenizer::literal(c)),
    ]);
    reveal_with_fuel(encoded_from, 2);
    assert(encoded(t, literal_marks()) =~= tokenizer::literal(c));
    law_marked_text_is_literal(t, literal_marks(), outputs, sc, status, command, paths);
}

} // verus!
