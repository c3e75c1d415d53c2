//! Expansion of words: command substitution, parameters and arithmetic, then
//! the tilde, then pathname expansion or field splitting, and the removal of
//! the marks at the end.

use crate::arith;
use crate::arith::{after_digits, after_name, eval_arithmetic, positional_param};
use crate::table::Table;
use crate::table;
use crate::text;
use crate::text::{
    i64_text, is_alphabetic, is_alphanumeric, is_whitespace, join, parse_usize, position, same,
    slice_text, split_once, strip_char, to_chars, u64_text,
};
use crate::tokenizer;
use crate::tokenizer::{find_command_subst_end, is_literal_special, MARK};
use crate::vars;
use crate::vars::{lookup_var, Vars};
use vstd::prelude::*;

verus! {

// ---------------------------------------------------------------------------
// Marks.
// ---------------------------------------------------------------------------

/// What follows `acc` when the marks of `s[i..]` are removed. A mark at the
/// very end protects nothing and goes too.
pub open spec fn stripped_from(s: Seq<char>, i: int, acc: Seq<char>) -> Seq<char>
    decreases s.len() - i,
{
    if i < 0 || i >= s.len() {
        acc
    } else if s[i] != MARK {
        stripped_from(s, i + 1, acc.push(s[i]))
    } else if i + 1 < s.len() {
        stripped_from(s, i + 2, acc.push(s[i + 1]))
    } else {
        acc
    }
}

/// The text without its marks.
pub open spec fn stripped(s: Seq<char>) -> Seq<char> {
    stripped_from(s, 0, Seq::empty())
}

/// Removes the marks that survived the expansions.
pub fn strip_marks(s: &str) -> (r: String)
    ensures
        r@ == stripped(s@),
{
    let chars = to_chars(s);
    strip_chars(&chars)
}

fn strip_chars(chars: &[char]) -> (r: String)
    ensures
        r@ == stripped(chars@),
{
    let n: usize = chars.len();
    let mut out = String::new();
    let mut i: usize = 0;
    while i < n
        invariant
            n == chars@.len(),
            i <= n,
            stripped(chars@) == stripped_from(chars@, i as int, out@),
        decreases n - i,
    {
        if chars[i] != MARK {
            out.push(chars[i]);
            i += 1;
        } else if i + 1 < n {
            out.push(chars[i + 1]);
            i += 2;
        } else {
            i += 1;
        }
    }
    out
}

/// A character that the output of a command has marked.
pub open spec fn output_special(c: char) -> bool {
    c == '$' || c == '*' || c == '?' || c == '[' || c == '~'
}

/// A character of a command's output, protected from further expansion.
pub open spec fn output_char(c: char) -> Seq<char> {
    if output_special(c) {
        seq![MARK, c]
    } else {
        seq![c]
    }
}

/// The output of a command, protected from further expansion. Its whitespace
/// is not protected: it still splits fields.
pub open spec fn marked_output(s: Seq<char>) -> Seq<char>
    decreases s.len(),
{
    if s.len() == 0 {
        Seq::empty()
    } else {
        marked_output(s.drop_last()) + output_char(s.last())
    }
}

/// Marks `$ * ? [ ~`, so that the output of a command is neither expanded nor
/// globbed.
pub fn mark_all_special(s: &str) -> (r: String)
    ensures
        r@ == marked_output(s@),
{
    let chars = to_chars(s);
    let mut out = String::new();
    let mut i: usize = 0;
    assert(s@.take(0) =~= Seq::empty());
    while i < chars.len()
        invariant
            i <= chars@.len(),
            chars@ == s@,
            out@ == marked_output(s@.take(i as int)),
        decreases chars@.len() - i,
    {
        let c = chars[i];
        let ghost before = out@;
        if c == '$' || c == '*' || c == '?' || c == '[' || c == '~' {
            out.push(MARK);
        }
        out.push(c);
        assert(out@ =~= before + output_char(c));
        i += 1;
        assert(s@.take(i as int).drop_last() =~= s@.take(i - 1));
    }
    assert(s@.take(i as int) =~= s@);
    out
}

/// A text from within double quotes, protected from everything that follows.
pub open spec fn protected(s: Seq<char>) -> Seq<char>
    decreases s.len(),
{
    if s.len() == 0 {
        Seq::empty()
    } else {
        protected(s.drop_last()) + tokenizer::literal(s.last())
    }
}

/// Marks whatever is special in a text, so that it stays in one piece and as
/// it is.
fn protect(s: &str) -> (r: String)
    ensures
        r@ == protected(s@),
{
    let chars = to_chars(s);
    let mut out = String::new();
    let mut i: usize = 0;
    assert(s@.take(0) =~= Seq::empty());
    while i < chars.len()
        invariant
            i <= chars@.len(),
            chars@ == s@,
            out@ == protected(s@.take(i as int)),
        decreases chars@.len() - i,
    {
        let c = chars[i];
        let ghost before = out@;
        if is_literal_special(c) {
            out.push(MARK);
        }
        out.push(c);
        assert(out@ =~= before + tokenizer::literal(c));
        i += 1;
        assert(s@.take(i as int).drop_last() =~= s@.take(i - 1));
    }
    assert(s@.take(i as int) =~= s@);
    out
}

// ---------------------------------------------------------------------------
// Field splitting.
// ---------------------------------------------------------------------------

/// The runs of `s[i..]` between whitespace that is not marked, with their
/// marks, behind those of `acc`; the first one begins with `cur`. A mark at the
/// very end protects nothing and goes.
pub open spec fn runs_from(s: Seq<char>, i: int, cur: Seq<char>, acc: Seq<Seq<char>>) -> Seq<
    Seq<char>,
>
    decreases s.len() - i,
{
    if i < 0 || i >= s.len() {
        closed_run(cur, acc)
    } else if s[i] == MARK {
        if i + 1 < s.len() {
            runs_from(s, i + 2, cur.push(MARK).push(s[i + 1]), acc)
        } else {
            closed_run(cur, acc)
        }
    } else if text::whitespace(s[i]) {
        runs_from(s, i + 1, Seq::empty(), closed_run(cur, acc))
    } else {
        runs_from(s, i + 1, cur.push(s[i]), acc)
    }
}

/// The runs with `cur` behind them, unless it is empty.
pub open spec fn closed_run(cur: Seq<char>, acc: Seq<Seq<char>>) -> Seq<Seq<char>> {
    if cur.len() == 0 {
        acc
    } else {
        acc.push(cur)
    }
}

/// The runs of a marked word between whitespace that is not marked.
pub open spec fn runs(s: Seq<char>) -> Seq<Seq<char>> {
    runs_from(s, 0, Seq::empty(), Seq::empty())
}

/// The fields of a marked word: its runs without their marks.
pub open spec fn fields(s: Seq<char>) -> Seq<Seq<char>> {
    runs(s).map_values(|r: Seq<char>| stripped(r))
}

fn push_text(v: &mut Vec<String>, t: String)
    ensures
        text::texts(final(v)@) == text::texts(old(v)@).push(t@),
{
    let ghost before = text::texts(v@);
    let ghost last = t@;
    v.push(t);
    assert(text::texts(v@) =~= before.push(last));
}

fn split_runs(s: &str) -> (r: Vec<String>)
    ensures
        text::texts(r@) == runs(s@),
{
    let chars = to_chars(s);
    let n: usize = chars.len();
    let mut out: Vec<String> = Vec::new();
    let mut cur = String::new();
    let mut i: usize = 0;
    assert(text::texts(out@) =~= Seq::empty());
    while i < n
        invariant
            n == chars@.len(),
            i <= n,
            chars@ == s@,
            runs(s@) == runs_from(s@, i as int, cur@, text::texts(out@)),
        decreases n - i,
    {
        if chars[i] == MARK {
            if i + 1 < n {
                cur.push(MARK);
                cur.push(chars[i + 1]);
                i += 2;
            } else {
                i += 1;
            }
        } else if is_whitespace(chars[i]) {
            if !cur.as_str().is_empty() {
                push_text(&mut out, cur);
                cur = String::new();
            }
            assert(cur@ =~= Seq::<char>::empty());
            i += 1;
        } else {
            cur.push(chars[i]);
            i += 1;
        }
    }
    if !cur.as_str().is_empty() {
        push_text(&mut out, cur);
    }
    out
}

/// Splits a marked word into fields on runs of whitespace that is not marked.
/// Such whitespace at either end is dropped, and no field is empty.
pub fn split_fields(s: &str) -> (r: Vec<String>)
    ensures
        text::texts(r@) == fields(s@),
{
    let parts = split_runs(s);
    let mut out: Vec<String> = Vec::new();
    let mut i: usize = 0;
    assert(text::texts(out@) =~= Seq::empty());
    while i < parts.len()
        invariant
            i <= parts@.len(),
            text::texts(parts@) == runs(s@),
            text::texts(out@) =~= fields(s@).take(i as int),
        decreases parts@.len() - i,
    {
        push_text(&mut out, strip_marks(parts[i].as_str()));
        i += 1;
        proof {
            assert(fields(s@)[i - 1] == stripped(runs(s@)[i - 1]));
            assert(fields(s@).take(i as int) =~= fields(s@).take(i - 1).push(fields(s@)[i - 1]));
        }
    }
    assert(fields(s@).take(i as int) =~= fields(s@));
    out
}

// ---------------------------------------------------------------------------
// Pathname patterns.
// ---------------------------------------------------------------------------

/// A character that makes a pathname pattern.
pub open spec fn glob_char(c: char) -> bool {
    c == '*' || c == '?' || c == '['
}

/// A pattern character without a mark stands at or after `i`.
pub open spec fn globs_from(s: Seq<char>, i: int) -> bool
    decreases s.len() - i,
{
    if i < 0 || i >= s.len() {
        false
    } else if s[i] == MARK {
        i + 1 < s.len() && globs_from(s, i + 2)
    } else {
        glob_char(s[i]) || globs_from(s, i + 1)
    }
}

/// Whether some `* ? [` stands without a mark.
pub fn has_unmarked_glob_char(s: &str) -> (r: bool)
    ensures
        r == globs_from(s@, 0),
{
    let chars = to_chars(s);
    let n: usize = chars.len();
    let mut i: usize = 0;
    while i < n
        invariant
            n == chars@.len(),
            i <= n,
            chars@ == s@,
            globs_from(s@, 0) == globs_from(s@, i as int),
        decreases n - i,
    {
        let c = chars[i];
        if c == MARK {
            if i + 1 >= n {
                return false;
            }
            i += 2;
        } else if c == '*' || c == '?' || c == '[' {
            return true;
        } else {
            i += 1;
        }
    }
    false
}

/// A literal character in a pattern: a pattern character stands in brackets.
pub open spec fn pattern_literal(c: char) -> Seq<char> {
    if glob_char(c) {
        seq!['[', c, ']']
    } else {
        seq![c]
    }
}

/// The pattern of `s[i..]` behind `acc`.
pub open spec fn pattern_from(s: Seq<char>, i: int, acc: Seq<char>) -> Seq<char>
    decreases s.len() - i,
{
    if i < 0 || i >= s.len() {
        acc
    } else if s[i] != MARK {
        pattern_from(s, i + 1, acc.push(s[i]))
    } else if i + 1 < s.len() {
        pattern_from(s, i + 2, acc + pattern_literal(s[i + 1]))
    } else {
        acc
    }
}

/// The pattern that a marked word stands for: marked characters are literal.
pub open spec fn pattern_of(s: Seq<char>) -> Seq<char> {
    pattern_from(s, 0, Seq::empty())
}

/// Turns a marked word into a pattern in which the marked characters are
/// literal.
pub fn to_glob_pattern(s: &str) -> (r: String)
    ensures
        r@ == pattern_of(s@),
{
    let chars = to_chars(s);
    let n: usize = chars.len();
    let mut out = String::new();
    let mut i: usize = 0;
    while i < n
        invariant
            n == chars@.len(),
            i <= n,
            chars@ == s@,
            pattern_of(s@) == pattern_from(s@, i as int, out@),
        decreases n - i,
    {
        if chars[i] != MARK {
            out.push(chars[i]);
            i += 1;
        } else if i + 1 < n {
            let c = chars[i + 1];
            let ghost before = out@;
            if c == '*' || c == '?' || c == '[' {
                out.push('[');
                out.push(c);
                out.push(']');
            } else {
                out.push(c);
            }
            assert(out@ =~= before + pattern_literal(c));
            i += 2;
        } else {
            i += 1;
        }
    }
    out
}

// ---------------------------------------------------------------------------
// Command substitution.
// ---------------------------------------------------------------------------

/// What stands at one position of a word, as far as command substitution is
/// concerned: a command, with whether it stood in double quotes and the
/// position behind it, or text to keep.
pub enum SubstPiece {
    Command(Seq<char>, bool, int),
    Keep(int),
}

/// `$(` stands at `i`, with the mark of double quotes between the two.
pub open spec fn opens_quoted(s: Seq<char>, i: int) -> bool {
    0 <= i && i + 2 < s.len() && s[i] == '$' && s[i + 1] == MARK && s[i + 2] == '('
}

/// The piece at `i`. `$((` opens an arithmetic expansion and is kept, and so
/// is a `$(` that is never closed.
pub open spec fn subst_piece(s: Seq<char>, i: int) -> SubstPiece {
    if s[i] == MARK {
        SubstPiece::Keep(if i + 1 < s.len() { i + 2 } else { i + 1 })
    } else if tokenizer::opens_command(s, i) {
        match tokenizer::subst_end(s, i + 2, 1) {
            Some(j) => SubstPiece::Command(s.subrange(i + 2, j), false, j + 1),
            None => SubstPiece::Keep(i + 1),
        }
    } else if opens_quoted(s, i) {
        match tokenizer::subst_end(s, i + 3, 1) {
            Some(j) => SubstPiece::Command(s.subrange(i + 3, j), true, j + 1),
            None => SubstPiece::Keep(i + 1),
        }
    } else {
        SubstPiece::Keep(i + 1)
    }
}

/// A piece ends behind its start and within the word.
pub proof fn lemma_subst_piece(s: Seq<char>, i: int)
    requires
        0 <= i < s.len(),
    ensures
        match subst_piece(s, i) {
            SubstPiece::Command(_, _, k) => i < k <= s.len(),
            SubstPiece::Keep(k) => i < k <= s.len(),
        },
{
    tokenizer::lemma_subst_end(s, i + 2, 1);
    tokenizer::lemma_subst_end(s, i + 3, 1);
}

/// The commands that `s[i..]` substitutes, behind those of `acc`.
pub open spec fn commands_from(s: Seq<char>, i: int, acc: Seq<Seq<char>>) -> Seq<Seq<char>>
    decreases s.len() - i,
{
    if i < 0 || i >= s.len() {
        acc
    } else {
        proof {
            lemma_subst_piece(s, i);
        }
        match subst_piece(s, i) {
            SubstPiece::Command(c, _, k) => commands_from(s, k, acc.push(c)),
            SubstPiece::Keep(k) => commands_from(s, k, acc),
        }
    }
}

/// The commands that a word substitutes, in the order in which they run.
pub open spec fn commands_of(s: Seq<char>) -> Seq<Seq<char>> {
    commands_from(s, 0, Seq::empty())
}

/// The output of the `n`th command; nothing where it is missing.
pub open spec fn output_of(outputs: Seq<Seq<char>>, n: int) -> Seq<char> {
    if 0 <= n < outputs.len() {
        outputs[n]
    } else {
        Seq::empty()
    }
}

/// The output of a command as it goes into the word: in double quotes it is
/// protected altogether, elsewhere its whitespace still splits fields.
pub open spec fn placed(output: Seq<char>, quoted: bool) -> Seq<char> {
    if quoted {
        protected(output)
    } else {
        marked_output(output)
    }
}

/// `s[i..]` behind `acc`, with the outputs from the `n`th on in place of the
/// commands.
pub open spec fn substituted_from(
    s: Seq<char>,
    i: int,
    outputs: Seq<Seq<char>>,
    n: int,
    acc: Seq<char>,
) -> Seq<char>
    decreases s.len() - i,
{
    if i < 0 || i >= s.len() {
        acc
    } else {
        proof {
            lemma_subst_piece(s, i);
        }
        match subst_piece(s, i) {
            SubstPiece::Command(_, quoted, k) => substituted_from(
                s,
                k,
                outputs,
                n + 1,
                acc + placed(output_of(outputs, n), quoted),
            ),
            SubstPiece::Keep(k) => substituted_from(s, k, outputs, n, acc + s.subrange(i, k)),
        }
    }
}

/// The word with the outputs of its commands in their places.
pub open spec fn substituted(s: Seq<char>, outputs: Seq<Seq<char>>) -> Seq<char> {
    substituted_from(s, 0, outputs, 0, Seq::empty())
}

/// One piece of a word: the bounds of the command in it, if it is one, and
/// whether it stood in double quotes; and the position behind the piece.
fn piece(chars: &[char], i: usize) -> (r: (Option<(usize, usize, bool)>, usize))
    requires
        i < chars@.len(),
    ensures
        match r.0 {
            Some((a, b, quoted)) => a <= b <= chars@.len() && subst_piece(chars@, i as int)
                == SubstPiece::Command(chars@.subrange(a as int, b as int), quoted, r.1 as int),
            None => subst_piece(chars@, i as int) == SubstPiece::Keep(r.1 as int),
        },
        i < r.1 <= chars@.len(),
{
    let n: usize = chars.len();
    if chars[i] == MARK {
        if i + 1 < n {
            (None, i + 2)
        } else {
            (None, i + 1)
        }
    } else if i + 1 < n && chars[i] == '$' && chars[i + 1] == '(' && !(i + 2 < n && chars[i + 2]
        == '(') {
        match find_command_subst_end(chars, i + 2) {
            Some(j) => (Some((i + 2, j, false)), j + 1),
            None => (None, i + 1),
        }
    } else if n - i > 2 && chars[i] == '$' && chars[i + 1] == MARK && chars[i + 2] == '(' {
        match find_command_subst_end(chars, i + 3) {
            Some(j) => (Some((i + 3, j, true)), j + 1),
            None => (None, i + 1),
        }
    } else {
        (None, i + 1)
    }
}

/// The commands that a word substitutes, in order.
pub fn command_substs(input: &str) -> (r: Vec<String>)
    ensures
        text::texts(r@) == commands_of(input@),
{
    let chars = to_chars(input);
    let mut out: Vec<String> = Vec::new();
    let mut i: usize = 0;
    assert(text::texts(out@) =~= Seq::empty());
    while i < chars.len()
        invariant
            i <= chars@.len(),
            chars@ == input@,
            commands_of(input@) == commands_from(input@, i as int, text::texts(out@)),
        decreases chars@.len() - i,
    {
        let (command, next) = piece(&chars, i);
        match command {
            Some((a, b, _)) => {
                push_text(&mut out, slice_text(&chars, a, b));
            },
            None => {},
        }
        i = next;
    }
    out
}

/// Puts the outputs of the substituted commands in their places. They are
/// marked, so that they are neither expanded nor globbed, nor split where the
/// command stood in double quotes.
pub fn expand_command_subst(input: &str, outputs: &[String]) -> (r: String)
    ensures
        r@ == substituted(input@, text::texts(outputs@)),
{
    let chars = to_chars(input);
    let mut out = String::new();
    let mut n: usize = 0;
    let mut i: usize = 0;
    while i < chars.len()
        invariant
            i <= chars@.len(),
            n <= i,
            chars@ == input@,
            substituted(input@, text::texts(outputs@)) == substituted_from(
                input@,
                i as int,
                text::texts(outputs@),
                n as int,
                out@,
            ),
        decreases chars@.len() - i,
    {
        let (command, next) = piece(&chars, i);
        match command {
            Some((_, _, quoted)) => {
                if n < outputs.len() {
                    let output = outputs[n].as_str();
                    if quoted {
                        out.append(protect(output).as_str());
                    } else {
                        out.append(mark_all_special(output).as_str());
                    }
                } else {
                    assert(out@ + placed(output_of(text::texts(outputs@), n as int), quoted)
                        =~= out@);
                }
                n += 1;
            },
            None => {
                out.append(slice_text(&chars, i, next).as_str());
            },
        }
        i = next;
    }
    out
}

// ---------------------------------------------------------------------------
// Parameters.
// ---------------------------------------------------------------------------

/// The characters that make an operator behind a `:`.
pub open spec fn operator_char(c: char) -> bool {
    c == '-' || c == '=' || c == '?' || c == '+'
}

/// The first operator `:- := :? :+` at or after `i`, by its second character,
/// and its position.
pub open spec fn operator_from(s: Seq<char>, i: int) -> Option<(char, int)>
    decreases s.len() - i,
{
    if i < 0 || i + 1 >= s.len() {
        None
    } else if s[i] == ':' && operator_char(s[i + 1]) {
        Some((s[i + 1], i))
    } else {
        operator_from(s, i + 1)
    }
}

/// The operator of a braced parameter and its position: the one nearest to
/// the name decides, and whatever follows it belongs to the word.
pub open spec fn operator_of(s: Seq<char>) -> Option<(char, int)> {
    operator_from(s, 0)
}

/// The diagnostic of `${NAME:?message}`.
pub open spec fn unset_notice(name: Seq<char>, word: Seq<char>) -> Seq<char> {
    "rsh: "@ + name + ": "@ + if word.len() == 0 {
        "parameter null or not set"@
    } else {
        word
    }
}

/// What `name`, the operator `op` and `word` stand for, and the variables
/// afterwards. A value that is assigned, or a message, has no marks.
pub open spec fn conditional(
    op: char,
    name: Seq<char>,
    word: Seq<char>,
    vars: vars::VarsModel,
) -> (Seq<char>, vars::VarsModel) {
    let current = vars.value(name);
    if op == '-' {
        (if current.len() == 0 { word } else { current }, vars)
    } else if op == '=' {
        if current.len() == 0 {
            (word, vars.export(name, stripped(word)))
        } else {
            (current, vars)
        }
    } else if op == '?' {
        if current.len() == 0 {
            (Seq::empty(), vars.notice(unset_notice(name, stripped(word))))
        } else {
            (current, vars)
        }
    } else {
        (if current.len() == 0 { Seq::empty() } else { word }, vars)
    }
}

/// What the text between the braces of `${...}` stands for, and the variables
/// afterwards.
pub open spec fn braced(inner: Seq<char>, sc: arith::Scope) -> (Seq<char>, vars::VarsModel) {
    if inner.len() > 0 && inner[0] == '#' {
        if inner.len() == 1 {
            (text::decimal(sc.positional.len()), sc.vars)
        } else {
            (text::decimal(sc.vars.value(inner.skip(1)).len()), sc.vars)
        }
    } else if inner == "@"@ {
        (text::joined(sc.positional, " "@), sc.vars)
    } else {
        match text::parse_int(inner, 0, usize::MAX as int) {
            Some(n) => (arith::positional_value(n, sc.positional), sc.vars),
            None => match operator_of(inner) {
                Some((op, p)) => conditional(op, inner.take(p), inner.skip(p + 2), sc.vars),
                None => (sc.vars.value(inner), sc.vars),
            },
        }
    }
}

fn first_operator(chars: &[char]) -> (r: Option<(char, usize)>)
    ensures
        match r {
            Some((op, p)) => operator_of(chars@) == Some((op, p as int)) && p + 2 <= chars@.len(),
            None => operator_of(chars@) is None,
        },
{
    let n: usize = chars.len();
    let mut i: usize = 0;
    while i < n
        invariant
            n == chars@.len(),
            i <= n,
            operator_of(chars@) == operator_from(chars@, i as int),
        decreases n - i,
    {
        if i + 1 >= n {
            return None;
        }
        let c = chars[i + 1];
        if chars[i] == ':' && (c == '-' || c == '=' || c == '?' || c == '+') {
            return Some((c, i));
        }
        i += 1;
    }
    None
}

fn expand_conditional(op: char, name: String, word: String, vars: &mut Vars) -> (r: String)
    ensures
        (r@, final(vars).model()) == conditional(op, name@, word@, old(vars).model()),
{
    let current = lookup_var(name.as_str(), vars);
    let unset_or_empty = current.as_str().is_empty();
    if op == '-' {
        if unset_or_empty {
            word
        } else {
            current
        }
    } else if op == '=' {
        if unset_or_empty {
            vars.export(name, strip_marks(word.as_str()));
            word
        } else {
            current
        }
    } else if op == '?' {
        if unset_or_empty {
            let mut line = "rsh: ".to_owned();
            line.append(name.as_str());
            line.append(": ");
            let message = strip_marks(word.as_str());
            if message.as_str().is_empty() {
                line.append("parameter null or not set");
            } else {
                line.append(message.as_str());
            }
            vars.note(line);
            let none = String::new();
            assert(none@ =~= Seq::<char>::empty());
            none
        } else {
            current
        }
    } else {
        if unset_or_empty {
            let none = String::new();
            assert(none@ =~= Seq::<char>::empty());
            none
        } else {
            word
        }
    }
}

/// Expands the text between the braces of `${...}`: `${NAME}`, `${#NAME}`,
/// `${NAME:-word}`, `${NAME:=word}`, `${NAME:?word}`, `${NAME:+word}` and the
/// positional forms `${N}`, `${@}`, `${#}`.
pub fn expand_braced_param(inner: &str, vars: &mut Vars, positional: &[String]) -> (r: String)
    ensures
        (r@, final(vars).model()) == braced(inner@, arith::scope(old(vars), positional)),
{
    let chars = to_chars(inner);
    let n: usize = chars.len();
    if n > 0 && chars[0] == '#' {
        if n == 1 {
            return u64_text(positional.len() as u64);
        }
        let name = slice_text(&chars, 1, n);
        assert(name@ =~= inner@.skip(1));
        let value = to_chars(lookup_var(name.as_str(), vars).as_str());
        return u64_text(value.len() as u64);
    }
    if same(inner, "@") {
        return join(positional, " ");
    }
    match parse_usize(inner) {
        Some(k) => {
            return positional_param(k, positional);
        },
        None => {},
    }
    match first_operator(&chars) {
        Some((op, p)) => {
            let name = slice_text(&chars, 0, p);
            let word = slice_text(&chars, p + 2, n);
            assert(name@ =~= inner@.take(p as int));
            assert(word@ =~= inner@.skip(p + 2));
            expand_conditional(op, name, word, vars)
        },
        None => lookup_var(inner, vars),
    }
}

/// The position of the parenthesis that closes the arithmetic expansion, with
/// `depth` open ones before `j`.
pub open spec fn arith_end(s: Seq<char>, j: int, depth: int) -> Option<int>
    decreases s.len() - j,
{
    if j < 0 || j >= s.len() {
        None
    } else if s[j] == '(' {
        arith_end(s, j + 1, depth + 1)
    } else if s[j] == ')' {
        if depth == 1 {
            Some(j)
        } else {
            arith_end(s, j + 1, depth - 1)
        }
    } else {
        arith_end(s, j + 1, depth)
    }
}

pub proof fn lemma_arith_end(s: Seq<char>, j: int, depth: int)
    requires
        0 <= j,
    ensures
        arith_end(s, j, depth) matches Some(k) ==> j <= k < s.len(),
    decreases s.len() - j,
{
    if j < s.len() {
        lemma_arith_end(s, j + 1, depth + 1);
        lemma_arith_end(s, j + 1, depth - 1);
        lemma_arith_end(s, j + 1, depth);
    }
}

/// The text without the mark characters.
pub open spec fn unmarked(s: Seq<char>) -> Seq<char> {
    s.filter(|c: char| c != MARK)
}

/// `$((` stands at `i`.
pub open spec fn opens_arith(s: Seq<char>, i: int) -> bool {
    0 <= i && i + 2 < s.len() && s[i] == '$' && s[i + 1] == '(' && s[i + 2] == '('
}

/// What an expansion at `i` yields: its text, the position behind it, and the
/// variables afterwards.
pub struct Expanded {
    pub text: Seq<char>,
    pub next: int,
    pub vars: vars::VarsModel,
}

/// The parameter that `s[j..]` names behind a `$`, if it names any. Between
/// the braces of a quoted one, the marks that the quotes put there go.
pub open spec fn reference(
    s: Seq<char>,
    j: int,
    quoted: bool,
    sc: arith::Scope,
    status: int,
) -> Option<Expanded> {
    let give = |t: Seq<char>, k: int| Some(Expanded { text: t, next: k, vars: sc.vars });
    if j >= s.len() {
        None
    } else if s[j] == '?' {
        give(text::decimal_int(status), j + 1)
    } else if s[j] == '@' {
        give(text::joined(sc.positional, " "@), j + 1)
    } else if s[j] == '#' {
        give(text::decimal(sc.positional.len()), j + 1)
    } else if text::ascii_digit(s[j]) {
        let k = arith::digits_end(s, j);
        let n = match text::parse_int(s.subrange(j, k), 0, usize::MAX as int) {
            Some(n) => n,
            None => 0,
        };
        give(arith::positional_value(n, sc.positional), k)
    } else if s[j] == '{' && text::find_char(s, j + 1, '}') is Some {
        let k = text::find_char(s, j + 1, '}')->0;
        let inner = s.subrange(j + 1, k);
        let (t, vars) = braced(if quoted { stripped(inner) } else { inner }, sc);
        Some(Expanded { text: t, next: k + 1, vars })
    } else if arith::name_start(s[j]) {
        let k = arith::name_end(s, j);
        give(sc.vars.value(s.subrange(j, k)), k)
    } else {
        None
    }
}

/// The expansion of what stands at `i`; a character that begins no expansion
/// stands for itself, and a marked one keeps its mark. What a parameter in
/// double quotes stands for is protected.
pub open spec fn expansion(s: Seq<char>, i: int, sc: arith::Scope, status: int) -> Expanded {
    let keep = |k: int| Expanded { text: s.subrange(i, k), next: k, vars: sc.vars };
    if s[i] == MARK {
        keep(if i + 1 < s.len() { i + 2 } else { i + 1 })
    } else if s[i] != '$' || i + 1 >= s.len() {
        keep(i + 1)
    } else if opens_arith(s, i) && arith_end(s, i, 0) is Some {
        let j = arith_end(s, i, 0)->0;
        Expanded {
            text: text::decimal_int(arith::arithmetic(unmarked(s.subrange(i + 2, j)), sc)),
            next: j + 1,
            vars: sc.vars,
        }
    } else if s[i + 1] == MARK {
        match reference(s, i + 2, true, sc, status) {
            Some(e) => Expanded { text: protected(e.text), next: e.next, vars: e.vars },
            None => keep(i + 1),
        }
    } else {
        match reference(s, i + 1, false, sc, status) {
            Some(e) => e,
            None => keep(i + 1),
        }
    }
}

/// A parameter ends at or behind its start and within the word.
pub proof fn lemma_reference(s: Seq<char>, j: int, quoted: bool, sc: arith::Scope, status: int)
    requires
        0 <= j,
    ensures
        reference(s, j, quoted, sc, status) matches Some(e) ==> j <= e.next <= s.len(),
{
    lemma_find_char(s, j + 1, '}');
    if j < s.len() {
        arith::lemma_runs(s, j);
    }
}

/// An expansion ends behind its start and within the word.
pub proof fn lemma_expansion(s: Seq<char>, i: int, sc: arith::Scope, status: int)
    requires
        0 <= i < s.len(),
    ensures
        i < expansion(s, i, sc, status).next <= s.len(),
{
    lemma_arith_end(s, i, 0);
    lemma_reference(s, i + 2, true, sc, status);
    lemma_reference(s, i + 1, false, sc, status);
}

/// A character that is found stands where it was found.
pub proof fn lemma_find_char(s: Seq<char>, i: int, c: char)
    requires
        0 <= i,
    ensures
        text::find_char(s, i, c) matches Some(k) ==> i <= k < s.len() && s[k] == c,
    decreases s.len() - i,
{
    if i < s.len() && s[i] != c {
        lemma_find_char(s, i + 1, c);
    }
}

/// The expansion of `s[i..]` behind `acc`, and the variables afterwards.
pub open spec fn expanded_from(
    s: Seq<char>,
    i: int,
    acc: Seq<char>,
    sc: arith::Scope,
    status: int,
) -> (Seq<char>, vars::VarsModel)
    decreases s.len() - i,
{
    if i < 0 || i >= s.len() {
        (acc, sc.vars)
    } else {
        proof {
            lemma_expansion(s, i, sc, status);
        }
        let e = expansion(s, i, sc, status);
        expanded_from(
            s,
            e.next,
            acc + e.text,
            arith::Scope { vars: e.vars, positional: sc.positional },
            status,
        )
    }
}

/// The word with its parameters and arithmetic expanded, and the variables
/// afterwards.
pub open spec fn expanded(s: Seq<char>, sc: arith::Scope, status: int) -> (
    Seq<char>,
    vars::VarsModel,
) {
    expanded_from(s, 0, Seq::empty(), sc, status)
}

fn find_arith_end(chars: &[char], i: usize) -> (r: Option<usize>)
    requires
        opens_arith(chars@, i as int),
    ensures
        match r {
            Some(j) => arith_end(chars@, i as int, 0) == Some(j as int) && i + 3 <= j
                < chars@.len(),
            None => arith_end(chars@, i as int, 0) is None,
        },
{
    let n: usize = chars.len();
    let mut depth: i128 = 2;
    let mut j: usize = i + 3;
    proof {
        reveal_with_fuel(arith_end, 4);
    }
    while j < n
        invariant
            n == chars@.len(),
            i + 3 <= j,
            -(j - i) <= depth <= j - i,
            arith_end(chars@, i as int, 0) == arith_end(chars@, j as int, depth as int),
        decreases n - j,
    {
        let c = chars[j];
        if c == '(' {
            depth += 1;
        } else if c == ')' {
            if depth == 1 {
                return Some(j);
            }
            depth -= 1;
        }
        j += 1;
    }
    None
}

fn remove_marks(chars: &[char], from: usize, to: usize) -> (r: String)
    requires
        from <= to <= chars@.len(),
    ensures
        r@ == unmarked(chars@.subrange(from as int, to as int)),
{
    let ghost part = chars@.subrange(from as int, to as int);
    let mut out = String::new();
    let mut i: usize = from;
    proof {
        reveal(Seq::filter);
        assert(part.take(0) =~= Seq::empty());
        assert(out@ =~= unmarked(part.take(0)));
    }
    while i < to
        invariant
            from <= i <= to <= chars@.len(),
            part == chars@.subrange(from as int, to as int),
            out@ == unmarked(part.take(i - from)),
        decreases to - i,
    {
        let c = chars[i];
        proof {
            reveal(Seq::filter);
            assert(part.take(i - from + 1).drop_last() =~= part.take(i - from));
            assert(part.take(i - from + 1).last() == c);
        }
        if c != MARK {
            out.push(c);
        }
        i += 1;
    }
    assert(part.take(to - from) =~= part);
    out
}

fn expand_reference(
    chars: &[char],
    j: usize,
    quoted: bool,
    vars: &mut Vars,
    positional: &[String],
    last_status: i32,
) -> (r: Option<(String, usize)>)
    requires
        j <= chars@.len(),
    ensures
        match r {
            Some((t, next)) => reference(
                chars@,
                j as int,
                quoted,
                arith::scope(old(vars), positional),
                last_status as int,
            ) == Some(Expanded { text: t@, next: next as int, vars: final(vars).model() })
                && next <= chars@.len(),
            None => *final(vars) == *old(vars) && reference(
                chars@,
                j as int,
                quoted,
                arith::scope(old(vars), positional),
                last_status as int,
            ) is None,
        },
{
    let n: usize = chars.len();
    if j >= n {
        return None;
    }
    proof {
        lemma_reference(
            chars@,
            j as int,
            quoted,
            arith::scope(vars, positional),
            last_status as int,
        );
    }
    let d = chars[j];
    if d == '?' {
        return Some((i64_text(last_status as i64), j + 1));
    }
    if d == '@' {
        return Some((join(positional, " "), j + 1));
    }
    if d == '#' {
        return Some((u64_text(positional.len() as u64), j + 1));
    }
    if d >= '0' && d <= '9' {
        let k: usize = after_digits(chars, j);
        let digits = slice_text(chars, j, k);
        let m: usize = match parse_usize(digits.as_str()) {
            Some(m) => m,
            None => 0,
        };
        return Some((positional_param(m, positional), k));
    }
    if d == '{' {
        match position(chars, j + 1, '}') {
            Some(k) => {
                let written = slice_text(chars, j + 1, k);
                let inner = if quoted {
                    strip_marks(written.as_str())
                } else {
                    written
                };
                let t = expand_braced_param(inner.as_str(), vars, positional);
                return Some((t, k + 1));
            },
            None => {},
        }
    }
    if is_alphabetic(d) || d == '_' {
        let k: usize = after_name(chars, j);
        let name = slice_text(chars, j, k);
        return Some((lookup_var(name.as_str(), vars), k));
    }
    None
}

fn expand_at(
    chars: &[char],
    i: usize,
    vars: &mut Vars,
    positional: &[String],
    last_status: i32,
    out: &mut String,
) -> (next: usize)
    requires
        i < chars@.len(),
    ensures
        ({
            let e = expansion(
                chars@,
                i as int,
                arith::scope(old(vars), positional),
                last_status as int,
            );
            &&& next == e.next
            &&& final(vars).model() == e.vars
            &&& final(out)@ == old(out)@ + e.text
        }),
        i < next <= chars@.len(),
{
    let n: usize = chars.len();
    let ghost before = out@;
    let c = chars[i];
    proof {
        lemma_expansion(
            chars@,
            i as int,
            arith::scope(vars, positional),
            last_status as int,
        );
    }
    if c == MARK {
        out.push(c);
        if i + 1 < n {
            out.push(chars[i + 1]);
            assert(out@ =~= before + chars@.subrange(i as int, i + 2));
            return i + 2;
        }
        assert(out@ =~= before + chars@.subrange(i as int, i + 1));
        return i + 1;
    }
    if c == '$' && i + 1 < n {
        let d = chars[i + 1];
        if d == '(' && i + 2 < n && chars[i + 2] == '(' {
            match find_arith_end(chars, i) {
                Some(j) => {
                    let inner = remove_marks(chars, i + 2, j);
                    let value: i64 = eval_arithmetic(inner.as_str(), vars, positional);
                    out.append(i64_text(value).as_str());
                    return j + 1;
                },
                None => {},
            }
        }
        let quoted = d == MARK;
        let j: usize = if quoted {
            i + 2
        } else {
            i + 1
        };
        match expand_reference(chars, j, quoted, vars, positional, last_status) {
            Some((t, next)) => {
                if quoted {
                    out.append(protect(t.as_str()).as_str());
                } else {
                    out.append(t.as_str());
                }
                return next;
            },
            None => {},
        }
    }
    out.push(c);
    assert(out@ =~= before + chars@.subrange(i as int, i + 1));
    i + 1
}

/// Expands `$NAME`, `${...}`, `$?`, `$@`, `$#`, `$N` and `$(( ... ))`, and
/// leaves alone whatever is marked. What follows a `$` from within double
/// quotes arrives marked, as the `?` of `$?` does; the value is protected then.
pub fn expand_vars(
    input: &str,
    vars: &mut Vars,
    positional: &[String],
    last_status: i32,
) -> (r: String)
    ensures
        (r@, final(vars).model()) == expanded(
            input@,
            arith::scope(old(vars), positional),
            last_status as int,
        ),
{
    let chars = to_chars(input);
    let mut out = String::new();
    let mut i: usize = 0;
    while i < chars.len()
        invariant
            i <= chars@.len(),
            chars@ == input@,
            expanded(input@, arith::scope(old(vars), positional), last_status as int)
                == expanded_from(
                input@,
                i as int,
                out@,
                arith::scope(vars, positional),
                last_status as int,
            ),
        decreases chars@.len() - i,
    {
        i = expand_at(&chars, i, vars, positional, last_status, &mut out);
    }
    out
}

// ---------------------------------------------------------------------------
// The tilde.
// ---------------------------------------------------------------------------

/// The word with a leading `~`, alone or before a `/`, replaced by the home
/// directory, if the environment names one.
pub open spec fn tilde(s: Seq<char>, env: table::Entries<Seq<char>>) -> Seq<char> {
    if s.len() > 0 && s[0] == '~' && (s.len() == 1 || s[1] == '/') {
        match table::lookup(env, "HOME"@) {
            Some(home) => home + s.skip(1),
            None => s,
        }
    } else {
        s
    }
}

/// Expands a leading `~` to the home directory.
pub fn expand_tilde(input: &str, env: &Table<String>) -> (r: String)
    ensures
        r@ == tilde(input@, env.model()),
{
    match strip_char(input, '~') {
        Some(rest) => {
            let chars = to_chars(rest.as_str());
            if chars.len() == 0 || chars[0] == '/' {
                match env.get("HOME") {
                    Some(home) => {
                        let mut out = home.clone();
                        out.append(rest.as_str());
                        return out;
                    },
                    None => {},
                }
            }
        },
        None => {},
    }
    input.to_owned()
}

// ---------------------------------------------------------------------------
// Whole words.
// ---------------------------------------------------------------------------

/// A character that a variable name begins with: an ASCII letter or `_`.
pub open spec fn initial_char(c: char) -> bool {
    text::ascii_letter(c) || c == '_'
}

/// A variable name, `[a-zA-Z_][a-zA-Z0-9_]*`.
pub open spec fn valid_name(s: Seq<char>) -> bool {
    s.len() > 0 && initial_char(s[0]) && forall|k: int|
        1 <= k < s.len() ==> initial_char(#[trigger] s[k]) || text::ascii_digit(s[k])
}

fn is_initial(c: char) -> (r: bool)
    ensures
        r == initial_char(c),
{
    (c >= 'a' && c <= 'z') || (c >= 'A' && c <= 'Z') || c == '_'
}

/// Whether a text is a variable name.
pub fn is_valid_name(s: &str) -> (r: bool)
    ensures
        r == valid_name(s@),
{
    let chars = to_chars(s);
    if chars.len() == 0 || !is_initial(chars[0]) {
        return false;
    }
    let mut i: usize = 1;
    while i < chars.len()
        invariant
            1 <= i <= chars@.len(),
            chars@ == s@,
            forall|k: int|
                1 <= k < i ==> initial_char(#[trigger] s@[k]) || text::ascii_digit(s@[k]),
        decreases chars@.len() - i,
    {
        let c = chars[i];
        if !(is_initial(c) || (c >= '0' && c <= '9')) {
            assert(!initial_char(s@[i as int]));
            return false;
        }
        i += 1;
    }
    true
}

/// A word `NAME=value`.
pub open spec fn assignment_word(s: Seq<char>) -> bool {
    match text::split_at_char(s, '=') {
        Some((name, _)) => valid_name(name),
        None => false,
    }
}

/// Whether an expanded word is an assignment.
pub fn is_assignment_word(s: &str) -> (r: bool)
    ensures
        r == assignment_word(s@),
{
    match split_once(s, '=') {
        Some((name, _)) => is_valid_name(name.as_str()),
        None => false,
    }
}

/// What a word has become once its parameters are expanded.
#[derive(Debug)]
pub enum WordPlan {
    /// A leading assignment: one word, neither split nor globbed.
    Assignment(String),
    /// A pathname pattern, and the text that stands if nothing matches it.
    Pathname { pattern: String, literal: String },
    /// Finished fields.
    Fields(Vec<String>),
}

/// Model of a word plan.
#[verifier::ext_equal]
pub enum PlanModel {
    Assignment(Seq<char>),
    Pathname { pattern: Seq<char>, literal: Seq<char> },
    Fields(Seq<Seq<char>>),
}

impl WordPlan {
    pub open spec fn model(self) -> PlanModel {
        match self {
            WordPlan::Assignment(w) => PlanModel::Assignment(w@),
            WordPlan::Pathname { pattern, literal } => PlanModel::Pathname {
                pattern: pattern@,
                literal: literal@,
            },
            WordPlan::Fields(v) => PlanModel::Fields(text::texts(v@)),
        }
    }
}

/// The plan of a word whose expansions before it are done. `command` tells
/// whether the command word was seen, behind which nothing is an assignment.
pub open spec fn plan_of(w: Seq<char>, command: bool) -> PlanModel {
    if !command && assignment_word(w) {
        PlanModel::Assignment(stripped(w))
    } else if globs_from(w, 0) {
        PlanModel::Pathname { pattern: pattern_of(w), literal: stripped(w) }
    } else {
        PlanModel::Fields(fields(w))
    }
}

/// A word with its substitutions, parameters and tilde expanded, and the
/// variables afterwards.
pub open spec fn resolved(
    word: Seq<char>,
    outputs: Seq<Seq<char>>,
    sc: arith::Scope,
    status: int,
) -> (Seq<char>, vars::VarsModel) {
    let (w, vars) = expanded(substituted(word, outputs), sc, status);
    (tilde(w, vars.env), vars)
}

fn resolve_word(
    word: &str,
    outputs: &[String],
    vars: &mut Vars,
    positional: &[String],
    last_status: i32,
) -> (r: String)
    ensures
        (r@, final(vars).model()) == resolved(
            word@,
            text::texts(outputs@),
            arith::scope(old(vars), positional),
            last_status as int,
        ),
{
    let after_subst = expand_command_subst(word, outputs);
    let after_vars = expand_vars(after_subst.as_str(), vars, positional, last_status);
    expand_tilde(after_vars.as_str(), &vars.env)
}

/// Expands one word, given the outputs of the commands that it substitutes, up
/// to the point where the file system decides.
pub fn expand_word(
    word: &str,
    outputs: &[String],
    vars: &mut Vars,
    positional: &[String],
    last_status: i32,
    command: bool,
) -> (r: WordPlan)
    ensures
        ({
            let (w, after) = resolved(
                word@,
                text::texts(outputs@),
                arith::scope(old(vars), positional),
                last_status as int,
            );
            r.model() == plan_of(w, command) && final(vars).model() == after
        }),
{
    let w = resolve_word(word, outputs, vars, positional, last_status);
    if !command && is_assignment_word(w.as_str()) {
        WordPlan::Assignment(strip_marks(w.as_str()))
    } else if has_unmarked_glob_char(w.as_str()) {
        WordPlan::Pathname {
            pattern: to_glob_pattern(w.as_str()),
            literal: strip_marks(w.as_str()),
        }
    } else {
        WordPlan::Fields(split_fields(w.as_str()))
    }
}

/// The patterns that a word of a `case` arm stands for: the whole word where
/// it holds a pattern character, else one pattern for each of its fields.
pub open spec fn patterns_of(w: Seq<char>, command: bool) -> Seq<Seq<char>> {
    if (!command && assignment_word(w)) || globs_from(w, 0) {
        seq![pattern_of(w)]
    } else {
        runs(w).map_values(|r: Seq<char>| pattern_of(r))
    }
}

/// Expands one pattern word of a `case` arm. Quoted characters are literal,
/// and the file system is not consulted.
pub fn expand_pattern(
    word: &str,
    outputs: &[String],
    vars: &mut Vars,
    positional: &[String],
    last_status: i32,
    command: bool,
) -> (r: (Vec<String>, bool))
    ensures
        ({
            let (w, after) = resolved(
                word@,
                text::texts(outputs@),
                arith::scope(old(vars), positional),
                last_status as int,
            );
            &&& text::texts(r.0@) == patterns_of(w, command)
            &&& r.1 == (command || !assignment_word(w))
            &&& final(vars).model() == after
        }),
{
    let w = resolve_word(word, outputs, vars, positional, last_status);
    let assignment = is_assignment_word(w.as_str());
    let mut out: Vec<String> = Vec::new();
    assert(text::texts(out@) =~= Seq::empty());
    if (!command && assignment) || has_unmarked_glob_char(w.as_str()) {
        push_text(&mut out, to_glob_pattern(w.as_str()));
        assert(text::texts(out@) =~= patterns_of(w@, command));
    } else {
        let parts = split_runs(w.as_str());
        let ghost all = patterns_of(w@, command);
        let mut i: usize = 0;
        while i < parts.len()
            invariant
                i <= parts@.len(),
                text::texts(parts@) == runs(w@),
                all == runs(w@).map_values(|r: Seq<char>| pattern_of(r)),
                text::texts(out@) =~= all.take(i as int),
            decreases parts@.len() - i,
        {
            push_text(&mut out, to_glob_pattern(parts[i].as_str()));
            i += 1;
            proof {
                assert(all[i - 1] == pattern_of(runs(w@)[i - 1]));
                assert(all.take(i as int) =~= all.take(i - 1).push(all[i - 1]));
            }
        }
        assert(all.take(i as int) =~= all);
    }
    (out, command || !assignment)
}

// ---------------------------------------------------------------------------
// Argument lists.
// ---------------------------------------------------------------------------

/// What the world outside contributes to one word.
#[derive(Debug)]
pub struct WordInputs {
    /// The outputs of the commands that it substitutes.
    pub outputs: Vec<String>,
    /// The paths that match it, if it is a pattern.
    pub paths: Vec<String>,
}

/// Model of what the world outside contributes to one word.
#[verifier::ext_equal]
pub struct InputsModel {
    pub outputs: Seq<Seq<char>>,
    pub paths: Seq<Seq<char>>,
}

impl WordInputs {
    pub open spec fn model(self) -> InputsModel {
        InputsModel { outputs: text::texts(self.outputs@), paths: text::texts(self.paths@) }
    }
}

/// The contribution to the `i`th word; nothing where it is missing.
pub open spec fn inputs_at(inputs: Seq<WordInputs>, i: int) -> InputsModel {
    if 0 <= i < inputs.len() {
        inputs[i].model()
    } else {
        InputsModel { outputs: Seq::empty(), paths: Seq::empty() }
    }
}

/// The words that a plan ends in, given the paths that match it: the pattern
/// itself where there are none.
pub open spec fn plan_words(plan: PlanModel, paths: Seq<Seq<char>>) -> Seq<Seq<char>> {
    match plan {
        PlanModel::Assignment(w) => seq![w],
        PlanModel::Pathname { literal, .. } => if paths.len() == 0 {
            seq![literal]
        } else {
            paths
        },
        PlanModel::Fields(v) => v,
    }
}

/// The words that `args[i..]` expand to behind `acc`, and the variables
/// afterwards.
pub open spec fn args_from(
    args: Seq<Seq<char>>,
    i: int,
    acc: Seq<Seq<char>>,
    command: bool,
    sc: arith::Scope,
    status: int,
    inputs: Seq<WordInputs>,
) -> (Seq<Seq<char>>, vars::VarsModel)
    decreases args.len() - i,
{
    if i < 0 || i >= args.len() {
        (acc, sc.vars)
    } else {
        let outside = inputs_at(inputs, i);
        let (w, vars) = resolved(args[i], outside.outputs, sc, status);
        let plan = plan_of(w, command);
        args_from(
            args,
            i + 1,
            acc + plan_words(plan, outside.paths),
            command || !(plan is Assignment),
            arith::Scope { vars, positional: sc.positional },
            status,
            inputs,
        )
    }
}

/// Adds the words that a plan ends in.
pub fn finish_word(out: &mut Vec<String>, plan: WordPlan, paths: &[String])
    ensures
        text::texts(final(out)@) == text::texts(old(out)@) + plan_words(
            plan.model(),
            text::texts(paths@),
        ),
{
    let ghost before = text::texts(out@);
    let ghost words = plan_words(plan.model(), text::texts(paths@));
    match plan {
        WordPlan::Assignment(w) => {
            push_text(out, w);
        },
        WordPlan::Pathname { pattern: _, literal } => {
            if paths.len() == 0 {
                push_text(out, literal);
            } else {
                push_texts(out, paths);
            }
        },
        WordPlan::Fields(v) => {
            push_texts(out, &v);
        },
    }
    assert(text::texts(out@) =~= before + words);
}

fn push_texts(out: &mut Vec<String>, more: &[String])
    ensures
        text::texts(final(out)@) == text::texts(old(out)@) + text::texts(more@),
{
    let ghost before = text::texts(out@);
    let ghost added = text::texts(more@);
    let mut i: usize = 0;
    while i < more.len()
        invariant
            i <= more@.len(),
            added == text::texts(more@),
            text::texts(out@) =~= before + added.take(i as int),
        decreases more@.len() - i,
    {
        push_text(out, more[i].clone());
        i += 1;
        assert(added.take(i as int) =~= added.take(i - 1).push(added[i - 1]));
    }
    assert(added.take(i as int) =~= added);
}

/// Expands the words of a command to their final form, `inputs` holding for
/// each word the outputs of the commands that it substitutes and the paths
/// that match it. A leading `NAME=value` keeps its value in one word.
pub fn expand_args(
    args: &[String],
    vars: &mut Vars,
    positional: &[String],
    last_status: i32,
    inputs: &[WordInputs],
) -> (r: Vec<String>)
    ensures
        (text::texts(r@), final(vars).model()) == args_from(
            text::texts(args@),
            0,
            Seq::empty(),
            false,
            arith::scope(old(vars), positional),
            last_status as int,
            inputs@,
        ),
{
    let mut out: Vec<String> = Vec::new();
    let mut command = false;
    let mut i: usize = 0;
    let none: Vec<String> = Vec::new();
    assert(text::texts(none@) =~= Seq::empty());
    while i < args.len()
        invariant
            i <= args@.len(),
            text::texts(none@) =~= Seq::empty(),
            args_from(
                text::texts(args@),
                0,
                Seq::empty(),
                false,
                arith::scope(old(vars), positional),
                last_status as int,
                inputs@,
            ) == args_from(
                text::texts(args@),
                i as int,
                text::texts(out@),
                command,
                arith::scope(vars, positional),
                last_status as int,
                inputs@,
            ),
        decreases args@.len() - i,
    {
        let plan = if i < inputs.len() {
            expand_word(
                args[i].as_str(),
                &inputs[i].outputs,
                vars,
                positional,
                last_status,
                command,
            )
        } else {
            expand_word(args[i].as_str(), &none, vars, positional, last_status, command)
        };
        if !matches!(plan, WordPlan::Assignment(_)) {
            command = true;
        }
        if i < inputs.len() {
            finish_word(&mut out, plan, &inputs[i].paths);
        } else {
            finish_word(&mut out, plan, &none);
        }
        i += 1;
    }
    out
}

} // verus!
