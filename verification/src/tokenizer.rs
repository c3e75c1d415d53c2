//! Lexical analysis: raw text to tokens, with quotes, escapes and comments.
//!
//! A word keeps, for every character that quoting protects from expansion, a
//! `MARK` in front of it. Between a `$` and what follows it, a mark tells that
//! the expansion stood in double quotes. The expander reads the marks and
//! removes them last.

use crate::text;
use crate::text::{is_alphabetic, is_whitespace, slice_text, to_chars};
use vstd::prelude::*;

verus! {

/// A lexical token.
#[derive(Debug, PartialEq, Clone)]
pub enum Token {
    Word(String),
    /// `|`
    Pipe,
    /// `>`, `>>`, `<`, `2>`, `<<`, `<<-` with its target.
    Redirect(RedirectKind, String),
    /// `&&`
    And,
    /// `||`
    Or,
    /// `;` or a newline
    Semicolon,
    /// `;;`
    CaseEnd,
    /// `(`
    LParen,
    /// `)`
    RParen,
    /// `{`
    LBrace,
    /// `}`
    RBrace,
    /// `&`
    Background,
}

/// The kinds of redirection.
#[derive(Debug, PartialEq, Eq, Structural, Clone, Copy)]
pub enum RedirectKind {
    /// `>`
    Out,
    /// `>>`
    Append,
    /// `<`
    In,
    /// `2>`
    ErrOut,
    /// `<<`, whose target is the delimiter as it was written.
    HereDoc,
    /// `<<-`, which also strips leading tabs from the body.
    HereDocStrip,
}

/// Marker for "the next character is literal": it is neither expanded nor
/// taken as part of a glob, and whitespace behind it does not split fields.
pub const MARK: char = '\u{1}';

/// The mathematical model of a token.
pub enum TokenModel {
    Word(Seq<char>),
    Pipe,
    Redirect(RedirectKind, Seq<char>),
    And,
    Or,
    Semicolon,
    CaseEnd,
    LParen,
    RParen,
    LBrace,
    RBrace,
    Background,
}

impl DeepView for Token {
    type V = TokenModel;

    open spec fn deep_view(&self) -> TokenModel {
        match self {
            Token::Word(w) => TokenModel::Word(w@),
            Token::Pipe => TokenModel::Pipe,
            Token::Redirect(k, t) => TokenModel::Redirect(*k, t@),
            Token::And => TokenModel::And,
            Token::Or => TokenModel::Or,
            Token::Semicolon => TokenModel::Semicolon,
            Token::CaseEnd => TokenModel::CaseEnd,
            Token::LParen => TokenModel::LParen,
            Token::RParen => TokenModel::RParen,
            Token::LBrace => TokenModel::LBrace,
            Token::RBrace => TokenModel::RBrace,
            Token::Background => TokenModel::Background,
        }
    }
}

/// The models of a sequence of tokens.
pub open spec fn token_models(v: Seq<Token>) -> Seq<TokenModel> {
    v.map_values(|t: Token| t.deep_view())
}

// ---------------------------------------------------------------------------
// Marks.
// ---------------------------------------------------------------------------

/// The characters that literal text (single quotes, backslash) marks.
pub open spec fn literal_special(c: char) -> bool {
    c == '$' || quoted_special(c)
}

/// The characters that double quotes mark: `$` stays active there.
pub open spec fn quoted_special(c: char) -> bool {
    c == '*' || c == '?' || c == '[' || c == '~' || c == MARK || text::whitespace(c)
}

/// Whether literal text marks a character.
pub fn is_literal_special(c: char) -> (r: bool)
    ensures
        r == literal_special(c),
{
    c == '$' || is_quoted_special(c)
}

fn is_quoted_special(c: char) -> (r: bool)
    ensures
        r == quoted_special(c),
{
    c == '*' || c == '?' || c == '[' || c == '~' || c == MARK || is_whitespace(c)
}

/// A character as literal text puts it into a word.
pub open spec fn literal(c: char) -> Seq<char> {
    if literal_special(c) {
        seq![MARK, c]
    } else {
        seq![c]
    }
}

/// A character as double quotes put it into a word.
pub open spec fn double_quoted(c: char) -> Seq<char> {
    if quoted_special(c) {
        seq![MARK, c]
    } else {
        seq![c]
    }
}

/// Appends a literal character: it is never expanded nor split.
fn push_literal(word: &mut String, c: char)
    ensures
        final(word)@ == old(word)@ + literal(c),
{
    let ghost before = word@;
    if is_literal_special(c) {
        word.push(MARK);
    }
    word.push(c);
    assert(word@ =~= before + literal(c));
}

/// Appends a character from within double quotes: `$` stays active.
fn push_double_quoted(word: &mut String, c: char)
    ensures
        final(word)@ == old(word)@ + double_quoted(c),
{
    let ghost before = word@;
    if is_quoted_special(c) {
        word.push(MARK);
    }
    word.push(c);
    assert(word@ =~= before + double_quoted(c));
}

// ---------------------------------------------------------------------------
// The extent of a command substitution.
// ---------------------------------------------------------------------------

/// The position behind the single-quoted text that begins at `j`, or the end
/// of the text where the quote is never closed.
pub open spec fn after_single(s: Seq<char>, j: int) -> int
    decreases s.len() - j,
{
    if j < 0 || j >= s.len() {
        j
    } else if s[j] == '\'' {
        j + 1
    } else {
        after_single(s, j + 1)
    }
}

/// The position behind the double-quoted text that begins at `j`; a backslash
/// protects the character behind it.
pub open spec fn after_double(s: Seq<char>, j: int) -> int
    decreases s.len() - j,
{
    if j < 0 || j >= s.len() {
        j
    } else if s[j] == '\\' && j + 1 < s.len() {
        after_double(s, j + 2)
    } else if s[j] == '"' {
        j + 1
    } else {
        after_double(s, j + 1)
    }
}

pub proof fn lemma_after_quotes(s: Seq<char>, j: int)
    ensures
        0 <= j <= s.len() ==> j <= after_single(s, j) <= s.len(),
        0 <= j <= s.len() ==> j <= after_double(s, j) <= s.len(),
    decreases s.len() - j,
{
    if 0 <= j < s.len() {
        lemma_after_quotes(s, j + 1);
        if j + 1 < s.len() {
            lemma_after_quotes(s, j + 2);
        }
    }
}

/// The position of the parenthesis that closes `depth` open ones, looking from
/// `j` on. Quoted and escaped parentheses do not count.
pub open spec fn subst_end(s: Seq<char>, j: int, depth: nat) -> Option<int>
    decreases s.len() - j,
{
    proof {
        lemma_after_quotes(s, j + 1);
    }
    if j < 0 || j >= s.len() {
        None
    } else if s[j] == '\\' {
        if j + 1 < s.len() {
            subst_end(s, j + 2, depth)
        } else {
            None
        }
    } else if s[j] == '\'' {
        subst_end(s, after_single(s, j + 1), depth)
    } else if s[j] == '"' {
        subst_end(s, after_double(s, j + 1), depth)
    } else if s[j] == '(' {
        subst_end(s, j + 1, depth + 1)
    } else if s[j] == ')' {
        if depth <= 1 {
            Some(j)
        } else {
            subst_end(s, j + 1, (depth - 1) as nat)
        }
    } else {
        subst_end(s, j + 1, depth)
    }
}

/// The closing position lies behind the start and holds a parenthesis.
pub proof fn lemma_subst_end(s: Seq<char>, j: int, depth: nat)
    requires
        0 <= j,
    ensures
        match subst_end(s, j, depth) {
            Some(k) => j <= k < s.len() && s[k] == ')',
            None => true,
        },
    decreases s.len() - j,
{
    if j < s.len() {
        lemma_after_quotes(s, j + 1);
        if s[j] == '\\' {
            if j + 1 < s.len() {
                lemma_subst_end(s, j + 2, depth);
            }
        } else if s[j] == '\'' {
            lemma_subst_end(s, after_single(s, j + 1), depth);
        } else if s[j] == '"' {
            lemma_subst_end(s, after_double(s, j + 1), depth);
        } else if s[j] == '(' {
            lemma_subst_end(s, j + 1, depth + 1);
        } else if s[j] == ')' {
            if depth > 1 {
                lemma_subst_end(s, j + 1, (depth - 1) as nat);
            }
        } else {
            lemma_subst_end(s, j + 1, depth);
        }
    }
}

/// Skips single-quoted text that begins at `from`.
fn skip_single(chars: &[char], from: usize) -> (r: usize)
    requires
        from <= chars@.len(),
    ensures
        r == after_single(chars@, from as int),
        from <= r <= chars@.len(),
{
    let mut j: usize = from;
    while j < chars.len() && chars[j] != '\''
        invariant
            from <= j <= chars@.len(),
            after_single(chars@, from as int) == after_single(chars@, j as int),
        decreases chars@.len() - j,
    {
        j += 1;
    }
    if j < chars.len() {
        j += 1;
    }
    j
}

/// Skips double-quoted text that begins at `from`.
fn skip_double(chars: &[char], from: usize) -> (r: usize)
    requires
        from <= chars@.len(),
    ensures
        r == after_double(chars@, from as int),
        from <= r <= chars@.len(),
{
    let mut j: usize = from;
    let n: usize = chars.len();
    while j < n
        invariant
            n == chars@.len(),
            from <= j <= n,
            after_double(chars@, from as int) == after_double(chars@, j as int),
        decreases n - j,
    {
        if chars[j] == '\\' && j + 1 < n {
            j += 2;
        } else if chars[j] == '"' {
            return j + 1;
        } else {
            j += 1;
        }
    }
    j
}

/// Given the index right after an opening `$(`, returns the index of the
/// matching `)`. Quotes and backslash escapes are honoured, so parentheses in
/// quoted or escaped text neither open nor close anything. `None` if the block
/// is never closed.
pub fn find_command_subst_end(chars: &[char], j: usize) -> (r: Option<usize>)
    ensures
        match r {
            Some(k) => subst_end(chars@, j as int, 1) == Some(k as int) && j <= k < chars@.len()
                && chars@[k as int] == ')',
            None => subst_end(chars@, j as int, 1) is None,
        },
{
    let n: usize = chars.len();
    let mut depth: u128 = 1;
    let mut k: usize = j;
    while k < n
        invariant
            n == chars@.len(),
            j <= k,
            1 <= depth <= k - j + 1,
            subst_end(chars@, j as int, 1) == subst_end(chars@, k as int, depth as nat),
        decreases n - k,
    {
        let c = chars[k];
        proof {
            lemma_after_quotes(chars@, k + 1);
        }
        if c == '\\' {
            if k + 1 < n {
                k += 2;
            } else {
                return None;
            }
        } else if c == '\'' {
            k = skip_single(chars, k + 1);
        } else if c == '"' {
            k = skip_double(chars, k + 1);
        } else if c == '(' {
            depth += 1;
            k += 1;
        } else if c == ')' {
            if depth == 1 {
                return Some(k);
            }
            depth -= 1;
            k += 1;
        } else {
            k += 1;
        }
    }
    None
}

// ---------------------------------------------------------------------------
// Words.
// ---------------------------------------------------------------------------

/// The characters that end an unquoted word.
pub open spec fn ends_word(c: char) -> bool {
    text::whitespace(c) || c == '|' || c == '&' || c == ';' || c == '<' || c == '>' || c
        == '#' || c == ')' || c == '('
}

fn is_word_end(c: char) -> (r: bool)
    ensures
        r == ends_word(c),
{
    is_whitespace(c) || c == '|' || c == '&' || c == ';' || c == '<' || c == '>' || c == '#' || c
        == ')' || c == '('
}

/// Reads single-quoted text from `i` on behind the word `w`: the longer word
/// and the position behind the closing quote. Everything is literal.
pub open spec fn single_from(s: Seq<char>, i: int, w: Seq<char>) -> Option<(Seq<char>, int)>
    decreases s.len() - i,
{
    if i < 0 || i >= s.len() {
        None
    } else if s[i] == '\'' {
        Some((w, i + 1))
    } else {
        single_from(s, i + 1, w + literal(s[i]))
    }
}

/// A backslash within double quotes escapes the character at `k`.
pub open spec fn double_escapes(s: Seq<char>, k: int) -> bool {
    0 <= k < s.len() && (s[k] == '"' || s[k] == '\\' || s[k] == '$')
}

/// The characters behind a `$` with which an expansion begins, but for `?`,
/// which double quotes mark by themselves, and for parentheses.
pub open spec fn begins_param(c: char) -> bool {
    text::alphabetic(c) || c == '_' || text::ascii_digit(c) || c == '@' || c == '#' || c == '{'
}

fn is_param_start(c: char) -> (r: bool)
    ensures
        r == begins_param(c),
{
    is_alphabetic(c) || c == '_' || (c >= '0' && c <= '9') || c == '@' || c == '#' || c == '{'
}

/// A parameter expansion opens at `i`.
pub open spec fn opens_param(s: Seq<char>, i: int) -> bool {
    0 <= i && i + 1 < s.len() && s[i] == '$' && begins_param(s[i + 1])
}

/// A command substitution opens at `i`.
pub open spec fn opens_subst(s: Seq<char>, i: int) -> bool {
    0 <= i && i + 1 < s.len() && s[i] == '$' && s[i + 1] == '('
}

/// A command substitution opens at `i`, and no arithmetic expansion.
pub open spec fn opens_command(s: Seq<char>, i: int) -> bool {
    opens_subst(s, i) && !(i + 2 < s.len() && s[i + 2] == '(')
}

/// Reads double-quoted text from `i` on behind the word `w`. Only `"`, `\`
/// and `$` can be escaped; `$` stays active otherwise. A mark between the `$`
/// and what follows it tells that the expansion stood in quotes; the command
/// of a substitution is kept as it was written. A `$(` that is never closed
/// is text.
pub open spec fn double_from(s: Seq<char>, i: int, w: Seq<char>) -> Option<(Seq<char>, int)>
    decreases s.len() - i,
{
    proof {
        if i >= 0 {
            lemma_subst_end(s, i + 2, 1);
        }
    }
    if i < 0 || i >= s.len() {
        None
    } else if s[i] == '"' {
        Some((w, i + 1))
    } else if s[i] == '\\' && double_escapes(s, i + 1) {
        double_from(s, i + 2, w + literal(s[i + 1]))
    } else if opens_command(s, i) && subst_end(s, i + 2, 1) is Some {
        let end = subst_end(s, i + 2, 1)->0;
        double_from(s, end + 1, w + seq!['$', MARK] + s.subrange(i + 1, end + 1))
    } else if opens_param(s, i) {
        double_from(s, i + 1, w + seq!['$', MARK])
    } else {
        double_from(s, i + 1, w + double_quoted(s[i]))
    }
}

/// Reads backquoted text from `i` on behind `w`; a backslash stands for the
/// character behind it.
pub open spec fn backtick_from(s: Seq<char>, i: int, w: Seq<char>) -> Option<(Seq<char>, int)>
    decreases s.len() - i,
{
    if i < 0 || i >= s.len() {
        None
    } else if s[i] == '`' {
        Some((w, i + 1))
    } else if s[i] == '\\' && i + 1 < s.len() {
        backtick_from(s, i + 2, w.push(s[i + 1]))
    } else {
        backtick_from(s, i + 1, w.push(s[i]))
    }
}

/// Each quoted form ends behind its start.
pub proof fn lemma_quoted_bounds(s: Seq<char>, i: int, w: Seq<char>)
    requires
        0 <= i,
    ensures
        single_from(s, i, w) matches Some((_, k)) ==> i < k <= s.len(),
        double_from(s, i, w) matches Some((_, k)) ==> i < k <= s.len(),
        backtick_from(s, i, w) matches Some((_, k)) ==> i < k <= s.len(),
    decreases s.len() - i,
{
    if i < s.len() {
        lemma_quoted_bounds(s, i + 1, w + literal(s[i]));
        lemma_quoted_bounds(s, i + 1, w + double_quoted(s[i]));
        lemma_quoted_bounds(s, i + 1, w + seq!['$', MARK]);
        lemma_subst_end(s, i + 2, 1);
        if let Some(end) = subst_end(s, i + 2, 1) {
            lemma_quoted_bounds(s, end + 1, w + seq!['$', MARK] + s.subrange(i + 1, end + 1));
        }
        lemma_quoted_bounds(s, i + 1, w.push(s[i]));
        if i + 1 < s.len() {
            lemma_quoted_bounds(s, i + 2, w + literal(s[i + 1]));
            lemma_quoted_bounds(s, i + 2, w.push(s[i + 1]));
        }
    }
}

/// The length of a `$#` or `${#` at `i`, where `#` is no comment; 0 without one.
pub open spec fn count_mark(s: Seq<char>, i: int) -> int {
    if i < 0 || i + 1 >= s.len() || s[i] != '$' {
        0
    } else if s[i + 1] == '#' {
        2
    } else if s[i + 1] == '{' && i + 2 < s.len() && s[i + 2] == '#' {
        3
    } else {
        0
    }
}

/// One piece of a word: the word with the piece at `i` behind it and the
/// position behind the piece, or the reason why the piece is malformed.
pub open spec fn word_piece(s: Seq<char>, i: int, w: Seq<char>) -> Result<
    (Seq<char>, int),
    Seq<char>,
> {
    let c = s[i];
    if c == '\'' {
        match single_from(s, i + 1, w) {
            Some(r) => Ok(r),
            None => Err("unclosed single quote"@),
        }
    } else if c == '"' {
        match double_from(s, i + 1, w) {
            Some(r) => Ok(r),
            None => Err("unclosed double quote"@),
        }
    } else if c == '`' {
        match backtick_from(s, i + 1, Seq::empty()) {
            Some((inner, k)) => Ok((w + seq!['$', '('] + inner + seq![')'], k)),
            None => Err("unclosed backtick (`)"@),
        }
    } else if opens_subst(s, i) {
        match subst_end(s, i + 2, 1) {
            Some(end) => Ok((w + s.subrange(i, end + 1), end + 1)),
            None => Err("unclosed $(...)"@),
        }
    } else if count_mark(s, i) > 0 {
        Ok((w + s.subrange(i, i + count_mark(s, i)), i + count_mark(s, i)))
    } else if c == '\\' {
        if i + 1 < s.len() {
            Ok((w + literal(s[i + 1]), i + 2))
        } else {
            Ok((w, i + 1))
        }
    } else {
        Ok((w.push(c), i + 1))
    }
}

pub proof fn lemma_word_piece_bounds(s: Seq<char>, i: int, w: Seq<char>)
    requires
        0 <= i < s.len(),
    ensures
        word_piece(s, i, w) matches Ok((_, k)) ==> i < k <= s.len(),
{
    lemma_quoted_bounds(s, i + 1, w);
    lemma_quoted_bounds(s, i + 1, Seq::empty());
    lemma_subst_end(s, i + 2, 1);
}

/// The word that reads on from `i`, `w` being what was read before: its text
/// and the position behind it, or what is wrong with it.
pub open spec fn word_from(s: Seq<char>, i: int, w: Seq<char>) -> Result<(Seq<char>, int), Seq<char>>
    decreases s.len() - i,
{
    if i < 0 || i >= s.len() || ends_word(s[i]) {
        Ok((w, i))
    } else {
        proof {
            lemma_word_piece_bounds(s, i, w);
        }
        match word_piece(s, i, w) {
            Ok((v, k)) => word_from(s, k, v),
            Err(e) => Err(e),
        }
    }
}

/// A word ends within the text, and behind its start where it has any piece.
pub proof fn lemma_word_bounds(s: Seq<char>, i: int, w: Seq<char>)
    requires
        0 <= i <= s.len(),
    ensures
        word_from(s, i, w) matches Ok((_, k)) ==> i <= k <= s.len(),
        word_from(s, i, w) matches Ok((_, k)) ==> i < s.len() && !ends_word(s[i]) ==> i < k,
    decreases s.len() - i,
{
    if i < s.len() && !ends_word(s[i]) {
        lemma_word_piece_bounds(s, i, w);
        if let Ok((v, k)) = word_piece(s, i, w) {
            lemma_word_bounds(s, k, v);
        }
    }
}

fn read_single(chars: &[char], from: usize, word: &mut String) -> (r: Option<usize>)
    requires
        from <= chars@.len(),
    ensures
        match r {
            Some(k) => single_from(chars@, from as int, old(word)@) == Some(
                (final(word)@, k as int),
            ) && from < k <= chars@.len(),
            None => single_from(chars@, from as int, old(word)@) is None,
        },
{
    let mut i: usize = from;
    while i < chars.len() && chars[i] != '\''
        invariant
            from <= i <= chars@.len(),
            single_from(chars@, from as int, old(word)@) == single_from(chars@, i as int, word@),
        decreases chars@.len() - i,
    {
        push_literal(word, chars[i]);
        i += 1;
    }
    if i < chars.len() {
        Some(i + 1)
    } else {
        None
    }
}

fn read_double(chars: &[char], from: usize, word: &mut String) -> (r: Option<usize>)
    requires
        from <= chars@.len(),
    ensures
        match r {
            Some(k) => double_from(chars@, from as int, old(word)@) == Some(
                (final(word)@, k as int),
            ) && from < k <= chars@.len(),
            None => double_from(chars@, from as int, old(word)@) is None,
        },
{
    let n: usize = chars.len();
    let mut i: usize = from;
    while i < n && chars[i] != '"'
        invariant
            n == chars@.len(),
            from <= i <= n,
            double_from(chars@, from as int, old(word)@) == double_from(chars@, i as int, word@),
        decreases n - i,
    {
        let c = chars[i];
        let ghost before = word@;
        let command = if c == '$' && i + 1 < n && chars[i + 1] == '(' && !(n - i > 2 && chars[i
            + 2] == '(') {
            find_command_subst_end(chars, i + 2)
        } else {
            None
        };
        if c == '\\' && i + 1 < n && (chars[i + 1] == '"' || chars[i + 1] == '\\' || chars[i + 1]
            == '$') {
            push_literal(word, chars[i + 1]);
            i += 2;
        } else if let Some(end) = command {
            word.push('$');
            word.push(MARK);
            word.append(slice_text(chars, i + 1, end + 1).as_str());
            assert(word@ =~= before + seq!['$', MARK] + chars@.subrange(i + 1, end + 1));
            i = end + 1;
        } else if c == '$' && i + 1 < n && is_param_start(chars[i + 1]) {
            word.push('$');
            word.push(MARK);
            assert(word@ =~= before + seq!['$', MARK]);
            i += 1;
        } else {
            push_double_quoted(word, c);
            i += 1;
        }
    }
    if i < n {
        Some(i + 1)
    } else {
        None
    }
}

fn read_backtick(chars: &[char], from: usize, inner: &mut String) -> (r: Option<usize>)
    requires
        from <= chars@.len(),
    ensures
        match r {
            Some(k) => backtick_from(chars@, from as int, old(inner)@) == Some(
                (final(inner)@, k as int),
            ) && from < k <= chars@.len(),
            None => backtick_from(chars@, from as int, old(inner)@) is None,
        },
{
    let n: usize = chars.len();
    let mut i: usize = from;
    while i < n && chars[i] != '`'
        invariant
            n == chars@.len(),
            from <= i <= n,
            backtick_from(chars@, from as int, old(inner)@) == backtick_from(
                chars@,
                i as int,
                inner@,
            ),
        decreases n - i,
    {
        if chars[i] == '\\' && i + 1 < n {
            inner.push(chars[i + 1]);
            i += 2;
        } else {
            inner.push(chars[i]);
            i += 1;
        }
    }
    if i < n {
        Some(i + 1)
    } else {
        None
    }
}

/// Reads a word at `*i`, respecting single and double quotes, backslash
/// escapes, and command substitution in both notations; a backquoted command
/// comes out as `$(...)`. The word stops before unquoted whitespace and before
/// any of `|&;<>#)(`, but for the `#` of `$#` and `${#`. On success `*i` is the position behind the word.
pub fn read_quoted_word(chars: &[char], i: &mut usize) -> (r: Result<String, String>)
    ensures
        match r {
            Ok(w) => word_from(chars@, *old(i) as int, Seq::empty()) == Ok::<
                (Seq<char>, int),
                Seq<char>,
            >((w@, *final(i) as int)),
            Err(e) => word_from(chars@, *old(i) as int, Seq::empty()) == Err::<
                (Seq<char>, int),
                Seq<char>,
            >(e@),
        },
{
    let mut word = String::new();
    let n: usize = chars.len();
    assert(word@ =~= Seq::empty());
    while *i < n && !is_word_end(chars[*i])
        invariant
            n == chars@.len(),
            word_from(chars@, *old(i) as int, Seq::empty()) == word_from(
                chars@,
                *i as int,
                word@,
            ),
        decreases n - *i,
    {
        let at: usize = *i;
        let c = chars[at];
        let ghost before = word@;
        proof {
            lemma_word_piece_bounds(chars@, at as int, before);
        }
        if c == '\'' {
            match read_single(chars, at + 1, &mut word) {
                Some(k) => {
                    *i = k;
                },
                None => {
                    return Err("unclosed single quote".to_owned());
                },
            }
        } else if c == '"' {
            match read_double(chars, at + 1, &mut word) {
                Some(k) => {
                    *i = k;
                },
                None => {
                    return Err("unclosed double quote".to_owned());
                },
            }
        } else if c == '`' {
            let mut inner = String::new();
            assert(inner@ =~= Seq::empty());
            match read_backtick(chars, at + 1, &mut inner) {
                Some(k) => {
                    word.push('$');
                    word.push('(');
                    word.append(inner.as_str());
                    word.push(')');
                    assert(word@ =~= before + seq!['$', '('] + inner@ + seq![')']);
                    *i = k;
                },
                None => {
                    return Err("unclosed backtick (`)".to_owned());
                },
            }
        } else if c == '$' && at + 1 < n && chars[at + 1] == '(' {
            let found = if at + 2 <= n {
                find_command_subst_end(chars, at + 2)
            } else {
                None
            };
            match found {
                Some(end) => {
                    let chunk = slice_text(chars, at, end + 1);
                    word.append(chunk.as_str());
                    *i = end + 1;
                },
                None => {
                    return Err("unclosed $(...)".to_owned());
                },
            }
        } else if c == '$' && at + 1 < n && chars[at + 1] == '#' {
            word.push('$');
            word.push('#');
            assert(word@ =~= before + chars@.subrange(at as int, at + 2));
            *i = at + 2;
        } else if c == '$' && n - at > 2 && chars[at + 1] == '{' && chars[at + 2] == '#' {
            word.push('$');
            word.push('{');
            word.push('#');
            assert(word@ =~= before + chars@.subrange(at as int, at + 3));
            *i = at + 3;
        } else if c == '\\' {
            if at + 1 < n {
                push_literal(&mut word, chars[at + 1]);
                *i = at + 2;
            } else {
                *i = at + 1;
            }
        } else {
            word.push(c);
            *i = at + 1;
        }
        assert(word_piece(chars@, at as int, before) == Ok::<(Seq<char>, int), Seq<char>>(
            (word@, *i as int),
        ));
    }
    Ok(word)
}

// ---------------------------------------------------------------------------
// Tokens.
// ---------------------------------------------------------------------------

/// The first position from `i` on that holds no whitespace.
pub open spec fn skip_blank(s: Seq<char>, i: int) -> int
    decreases s.len() - i,
{
    if 0 <= i < s.len() && text::whitespace(s[i]) {
        skip_blank(s, i + 1)
    } else {
        i
    }
}

pub proof fn lemma_skip_blank(s: Seq<char>, i: int)
    ensures
        i <= skip_blank(s, i),
        i <= s.len() ==> skip_blank(s, i) <= s.len(),
    decreases s.len() - i,
{
    if 0 <= i < s.len() && text::whitespace(s[i]) {
        lemma_skip_blank(s, i + 1);
    }
}

/// The word behind any whitespace at `i`.
pub open spec fn spaced_word(s: Seq<char>, i: int) -> Result<(Seq<char>, int), Seq<char>> {
    word_from(s, skip_blank(s, i), Seq::empty())
}

/// Skips whitespace, then reads a word.
fn read_word(chars: &[char], i: &mut usize) -> (r: Result<String, String>)
    requires
        *old(i) <= chars@.len(),
    ensures
        match r {
            Ok(w) => spaced_word(chars@, *old(i) as int) == Ok::<(Seq<char>, int), Seq<char>>(
                (w@, *final(i) as int),
            ) && *old(i) <= *final(i) <= chars@.len(),
            Err(e) => spaced_word(chars@, *old(i) as int) == Err::<(Seq<char>, int), Seq<char>>(
                e@,
            ),
        },
{
    while *i < chars.len() && is_whitespace(chars[*i])
        invariant
            *old(i) <= *i <= chars@.len(),
            skip_blank(chars@, *old(i) as int) == skip_blank(chars@, *i as int),
        decreases chars@.len() - *i,
    {
        *i = *i + 1;
    }
    proof {
        lemma_word_bounds(chars@, *i as int, Seq::empty());
    }
    read_quoted_word(chars, i)
}

/// The end of the line that `i` lies in: its newline, or the end of the text.
pub open spec fn line_end(s: Seq<char>, i: int) -> int
    decreases s.len() - i,
{
    if 0 <= i < s.len() && s[i] != '\n' {
        line_end(s, i + 1)
    } else {
        i
    }
}

pub proof fn lemma_line_end(s: Seq<char>, i: int)
    requires
        0 <= i <= s.len(),
    ensures
        i <= line_end(s, i) <= s.len(),
        line_end(s, i) < s.len() ==> s[line_end(s, i)] == '\n',
        forall|k: int| i <= k < line_end(s, i) ==> s[k] != '\n',
    decreases s.len() - i,
{
    if i < s.len() && s[i] != '\n' {
        lemma_line_end(s, i + 1);
    }
}

/// What stands at one position of the text.
pub enum LexedModel {
    /// Nothing more: the text ends here.
    End,
    /// Whitespace or a comment; go on at the position.
    Blank(int),
    /// A token; go on at the position.
    Tok(TokenModel, int),
    /// Malformed text.
    Bad(Seq<char>),
}

/// The character at `i`, if there is one, is `c`.
pub open spec fn at_char(s: Seq<char>, i: int, c: char) -> bool {
    0 <= i < s.len() && s[i] == c
}

/// A redirection of the given kind whose target stands at `i`.
pub open spec fn redirect_at(s: Seq<char>, kind: RedirectKind, i: int) -> LexedModel {
    match spaced_word(s, i) {
        Ok((w, k)) => LexedModel::Tok(TokenModel::Redirect(kind, w), k),
        Err(e) => LexedModel::Bad(e),
    }
}

/// A here-document redirection whose delimiter stands at `i`. The delimiter is
/// kept as it was written, quotes and leading blanks included.
pub open spec fn heredoc_at(s: Seq<char>, kind: RedirectKind, i: int) -> LexedModel {
    match spaced_word(s, i) {
        Ok((_, k)) => LexedModel::Tok(TokenModel::Redirect(kind, s.subrange(i, k)), k),
        Err(e) => LexedModel::Bad(e),
    }
}

/// What stands at position `i` of the text.
pub open spec fn lex_at(s: Seq<char>, i: int) -> LexedModel {
    if i < 0 || i >= s.len() {
        LexedModel::End
    } else {
        let c = s[i];
        if c == '\n' {
            LexedModel::Tok(TokenModel::Semicolon, i + 1)
        } else if text::whitespace(c) {
            LexedModel::Blank(i + 1)
        } else if c == '#' {
            LexedModel::Blank(line_end(s, i))
        } else if c == '&' && at_char(s, i + 1, '&') {
            LexedModel::Tok(TokenModel::And, i + 2)
        } else if c == '|' && at_char(s, i + 1, '|') {
            LexedModel::Tok(TokenModel::Or, i + 2)
        } else if c == ';' && at_char(s, i + 1, ';') {
            LexedModel::Tok(TokenModel::CaseEnd, i + 2)
        } else if c == '<' && at_char(s, i + 1, '<') {
            if at_char(s, i + 2, '-') {
                heredoc_at(s, RedirectKind::HereDocStrip, i + 3)
            } else {
                heredoc_at(s, RedirectKind::HereDoc, i + 2)
            }
        } else if c == '>' && at_char(s, i + 1, '>') {
            redirect_at(s, RedirectKind::Append, i + 2)
        } else if c == '2' && at_char(s, i + 1, '>') {
            redirect_at(s, RedirectKind::ErrOut, i + 2)
        } else if c == '|' {
            LexedModel::Tok(TokenModel::Pipe, i + 1)
        } else if c == ';' {
            LexedModel::Tok(TokenModel::Semicolon, i + 1)
        } else if c == ')' {
            LexedModel::Tok(TokenModel::RParen, i + 1)
        } else if c == '(' {
            LexedModel::Tok(TokenModel::LParen, i + 1)
        } else if c == '{' {
            LexedModel::Tok(TokenModel::LBrace, i + 1)
        } else if c == '}' {
            LexedModel::Tok(TokenModel::RBrace, i + 1)
        } else if c == '&' {
            LexedModel::Tok(TokenModel::Background, i + 1)
        } else if c == '>' {
            redirect_at(s, RedirectKind::Out, i + 1)
        } else if c == '<' {
            redirect_at(s, RedirectKind::In, i + 1)
        } else {
            match word_from(s, i, Seq::empty()) {
                Ok((w, k)) => LexedModel::Tok(TokenModel::Word(w), k),
                Err(e) => LexedModel::Bad(e),
            }
        }
    }
}

/// The position to go on at.
pub open spec fn lexed_next(l: LexedModel) -> Option<int> {
    match l {
        LexedModel::Blank(k) => Some(k),
        LexedModel::Tok(_, k) => Some(k),
        _ => None,
    }
}

/// Lexing always moves forward, and never past the end.
pub proof fn lemma_lex_progress(s: Seq<char>, i: int)
    requires
        0 <= i <= s.len(),
    ensures
        lexed_next(lex_at(s, i)) matches Some(k) ==> i < k <= s.len(),
{
    if i < s.len() {
        lemma_word_bounds(s, i, Seq::empty());
        lemma_line_end(s, i + 1);
        lemma_skip_blank(s, i + 1);
        lemma_word_bounds(s, skip_blank(s, i + 1), Seq::empty());
        if i + 1 < s.len() {
            lemma_skip_blank(s, i + 2);
            lemma_word_bounds(s, skip_blank(s, i + 2), Seq::empty());
        }
        if i + 2 < s.len() {
            lemma_skip_blank(s, i + 3);
            lemma_word_bounds(s, skip_blank(s, i + 3), Seq::empty());
        }
    }
}

/// The tokens `acc` followed by those of the text from `i` on.
pub open spec fn tokens_from(s: Seq<char>, i: int, acc: Seq<TokenModel>) -> Result<
    Seq<TokenModel>,
    Seq<char>,
>
    decreases s.len() - i,
{
    if i < 0 || i >= s.len() {
        Ok(acc)
    } else {
        proof {
            lemma_lex_progress(s, i);
        }
        match lex_at(s, i) {
            LexedModel::End => Ok(acc),
            LexedModel::Blank(k) => tokens_from(s, k, acc),
            LexedModel::Tok(t, k) => tokens_from(s, k, acc.push(t)),
            LexedModel::Bad(e) => Err(e),
        }
    }
}

/// The tokens of a text, or what is malformed in it.
pub open spec fn tokens_of(s: Seq<char>) -> Result<Seq<TokenModel>, Seq<char>> {
    tokens_from(s, 0, Seq::empty())
}

enum Lexed {
    Blank(usize),
    Tok(Token, usize),
    Bad(String),
}

impl DeepView for Lexed {
    type V = LexedModel;

    closed spec fn deep_view(&self) -> LexedModel {
        match self {
            Lexed::Blank(k) => LexedModel::Blank(*k as int),
            Lexed::Tok(t, k) => LexedModel::Tok(t.deep_view(), *k as int),
            Lexed::Bad(e) => LexedModel::Bad(e@),
        }
    }
}

fn redirect(chars: &[char], kind: RedirectKind, from: usize) -> (r: Lexed)
    requires
        from <= chars@.len(),
    ensures
        r.deep_view() == redirect_at(chars@, kind, from as int),
{
    let mut i: usize = from;
    match read_word(chars, &mut i) {
        Ok(w) => Lexed::Tok(Token::Redirect(kind, w), i),
        Err(e) => Lexed::Bad(e),
    }
}

fn heredoc(chars: &[char], kind: RedirectKind, from: usize) -> (r: Lexed)
    requires
        from <= chars@.len(),
    ensures
        r.deep_view() == heredoc_at(chars@, kind, from as int),
{
    let mut i: usize = from;
    match read_word(chars, &mut i) {
        Ok(_) => {
            let target = slice_text(chars, from, i);
            Lexed::Tok(Token::Redirect(kind, target), i)
        },
        Err(e) => Lexed::Bad(e),
    }
}

/// Skips to the end of the line that `from` lies in.
fn skip_line(chars: &[char], from: usize) -> (r: usize)
    requires
        from <= chars@.len(),
    ensures
        r == line_end(chars@, from as int),
{
    let mut i: usize = from;
    while i < chars.len() && chars[i] != '\n'
        invariant
            from <= i <= chars@.len(),
            line_end(chars@, from as int) == line_end(chars@, i as int),
        decreases chars@.len() - i,
    {
        i += 1;
    }
    i
}

/// Reads what stands at position `i`.
fn lex(chars: &[char], i: usize) -> (r: Lexed)
    requires
        i < chars@.len(),
    ensures
        r.deep_view() == lex_at(chars@, i as int),
{
    let n: usize = chars.len();
    let c = chars[i];
    let next = if i + 1 < n {
        Some(chars[i + 1])
    } else {
        None
    };
    if c == '\n' {
        Lexed::Tok(Token::Semicolon, i + 1)
    } else if is_whitespace(c) {
        Lexed::Blank(i + 1)
    } else if c == '#' {
        Lexed::Blank(skip_line(chars, i))
    } else if c == '&' && next == Some('&') {
        Lexed::Tok(Token::And, i + 2)
    } else if c == '|' && next == Some('|') {
        Lexed::Tok(Token::Or, i + 2)
    } else if c == ';' && next == Some(';') {
        Lexed::Tok(Token::CaseEnd, i + 2)
    } else if c == '<' && next == Some('<') {
        if i + 2 < n && chars[i + 2] == '-' {
            heredoc(chars, RedirectKind::HereDocStrip, i + 3)
        } else {
            heredoc(chars, RedirectKind::HereDoc, i + 2)
        }
    } else if c == '>' && next == Some('>') {
        redirect(chars, RedirectKind::Append, i + 2)
    } else if c == '2' && next == Some('>') {
        redirect(chars, RedirectKind::ErrOut, i + 2)
    } else if c == '|' {
        Lexed::Tok(Token::Pipe, i + 1)
    } else if c == ';' {
        Lexed::Tok(Token::Semicolon, i + 1)
    } else if c == ')' {
        Lexed::Tok(Token::RParen, i + 1)
    } else if c == '(' {
        Lexed::Tok(Token::LParen, i + 1)
    } else if c == '{' {
        Lexed::Tok(Token::LBrace, i + 1)
    } else if c == '}' {
        Lexed::Tok(Token::RBrace, i + 1)
    } else if c == '&' {
        Lexed::Tok(Token::Background, i + 1)
    } else if c == '>' {
        redirect(chars, RedirectKind::Out, i + 1)
    } else if c == '<' {
        redirect(chars, RedirectKind::In, i + 1)
    } else {
        let mut k: usize = i;
        match read_quoted_word(chars, &mut k) {
            Ok(w) => Lexed::Tok(Token::Word(w), k),
            Err(e) => Lexed::Bad(e),
        }
    }
}

/// Splits text into tokens. A newline separates commands like `;`, and an
/// unquoted `#` begins a comment: the rest of its line is ignored.
pub fn tokenize(input: &str) -> (r: Result<Vec<Token>, String>)
    ensures
        match r {
            Ok(v) => tokens_of(input@) == Ok::<Seq<TokenModel>, Seq<char>>(token_models(v@)),
            Err(e) => tokens_of(input@) == Err::<Seq<TokenModel>, Seq<char>>(e@),
        },
{
    let chars = to_chars(input);
    let mut tokens: Vec<Token> = Vec::new();
    let mut i: usize = 0;
    assert(token_models(tokens@) =~= Seq::empty());
    while i < chars.len()
        invariant
            i <= chars@.len(),
            chars@ == input@,
            tokens_of(input@) == tokens_from(input@, i as int, token_models(tokens@)),
        decreases chars@.len() - i,
    {
        proof {
            lemma_lex_progress(chars@, i as int);
        }
        match lex(&chars, i) {
            Lexed::Blank(k) => {
                i = k;
            },
            Lexed::Tok(t, k) => {
                let ghost before = token_models(tokens@);
                let ghost m = t.deep_view();
                tokens.push(t);
                assert(token_models(tokens@) =~= before.push(m));
                i = k;
            },
            Lexed::Bad(e) => {
                return Err(e);
            },
        }
    }
    Ok(tokens)
}

} // verus!
