//! Laws of tokens: words, operators, redirections, and how far a command
//! substitution goes.

use crate::arith;
use crate::expand;
use crate::interpolation;
use crate::quoting;
use crate::text;
use crate::textlaws;
use crate::tokenizer;
use crate::tokenizer::{RedirectKind, TokenModel, MARK};
use crate::wordlaws;
use vstd::prelude::*;

verus! {

// ---------------------------------------------------------------------------
// Words and operators.
// ---------------------------------------------------------------------------

/// A text of ordinary characters.
pub open spec fn plain(w: Seq<char>) -> bool {
    forall|k: int| 0 <= k < w.len() ==> wordlaws::ordinary(#[trigger] w[k])
}

/// The text stands at `i`, and what follows it ends words.
pub open spec fn stands(s: Seq<char>, i: int, w: Seq<char>) -> bool {
    &&& 0 <= i
    &&& i + w.len() <= s.len()
    &&& s.subrange(i, i + w.len()) == w
    &&& i + w.len() == s.len() || tokenizer::ends_word(s[i + w.len()])
}

proof fn lemma_word_stands(s: Seq<char>, i: int, w: Seq<char>, k: int)
    requires
        plain(w),
        stands(s, i, w),
        0 <= k <= w.len(),
    ensures
        tokenizer::word_from(s, i + k, w.take(k)) == Ok::<(Seq<char>, int), Seq<char>>(
            (w, i + w.len()),
        ),
    decreases w.len() - k,
{
    if k == w.len() {
        assert(w.take(k) =~= w);
    } else {
        assert(s[i + k] == s.subrange(i, i + w.len())[k]);
        assert(wordlaws::ordinary(w[k]));
        assert(w.take(k).push(w[k]) =~= w.take(k + 1));
        lemma_word_stands(s, i, w, k + 1);
        let v = w.take(k);
        assert(tokenizer::word_piece(s, i + k, v) == Ok::<(Seq<char>, int), Seq<char>>(
            (v.push(w[k]), i + k + 1),
        ));
    }
}

/// A run of ordinary characters, up to the next one that ends words, is one
/// word, and stands for itself.
pub proof fn law_word_token(s: Seq<char>, i: int, w: Seq<char>, acc: Seq<TokenModel>)
    requires
        w.len() > 0,
        plain(w),
        stands(s, i, w),
        w != seq!['2'] || i + 1 == s.len() || s[i + 1] != '>',
    ensures
        tokenizer::tokens_from(s, i, acc) == tokenizer::tokens_from(
            s,
            i + w.len(),
            acc.push(TokenModel::Word(w)),
        ),
{
    assert(w.take(0) =~= Seq::<char>::empty());
    lemma_word_stands(s, i, w, 0);
    assert(s[i] == s.subrange(i, i + w.len())[0]);
    assert(wordlaws::ordinary(w[0]));
    if w[0] == '2' && i + 1 < s.len() && s[i + 1] == '>' {
        if w.len() > 1 {
            assert(s[i + 1] == s.subrange(i, i + w.len())[1]);
            assert(wordlaws::ordinary(w[1]));
        } else {
            assert(w =~= seq!['2']);
        }
    }
    assert(tokenizer::lex_at(s, i) == tokenizer::LexedModel::Tok(
        TokenModel::Word(w),
        i + w.len(),
    ));
}

/// The operators: `|`, `||`, `&`, `&&`, `;`, `;;`, the parentheses and the
/// braces, and the newline, which is a `;`. The longer one is taken where
/// there are two.
pub proof fn law_operator_tokens(s: Seq<char>, i: int, acc: Seq<TokenModel>)
    requires
        0 <= i < s.len(),
    ensures
        ({
            let next = |t: TokenModel, n: int|
                tokenizer::tokens_from(s, i, acc) == tokenizer::tokens_from(s, i + n, acc.push(t));
            let doubled = i + 1 < s.len() && s[i + 1] == s[i];
            &&& s[i] == '|' && !doubled ==> next(TokenModel::Pipe, 1)
            &&& s[i] == '|' && doubled ==> next(TokenModel::Or, 2)
            &&& s[i] == '&' && !doubled ==> next(TokenModel::Background, 1)
            &&& s[i] == '&' && doubled ==> next(TokenModel::And, 2)
            &&& s[i] == ';' && !doubled ==> next(TokenModel::Semicolon, 1)
            &&& s[i] == ';' && doubled ==> next(TokenModel::CaseEnd, 2)
            &&& s[i] == '(' ==> next(TokenModel::LParen, 1)
            &&& s[i] == ')' ==> next(TokenModel::RParen, 1)
            &&& s[i] == '{' ==> next(TokenModel::LBrace, 1)
            &&& s[i] == '}' ==> next(TokenModel::RBrace, 1)
            &&& s[i] == '\n' ==> next(TokenModel::Semicolon, 1)
            &&& text::whitespace(s[i]) && s[i] != '\n' ==> tokenizer::tokens_from(s, i, acc)
                == tokenizer::tokens_from(s, i + 1, acc)
        }),
{
}

proof fn lemma_gap(s: Seq<char>, i: int, gap: Seq<char>, k: int)
    requires
        0 <= i,
        textlaws::blank(gap),
        i + gap.len() <= s.len(),
        s.subrange(i, i + gap.len()) == gap,
        i + gap.len() == s.len() || !text::whitespace(s[i + gap.len()]),
        0 <= k <= gap.len(),
    ensures
        tokenizer::skip_blank(s, i + k) == i + gap.len(),
    decreases gap.len() - k,
{
    if k < gap.len() {
        assert(s[i + k] == s.subrange(i, i + gap.len())[k]);
        lemma_gap(s, i, gap, k + 1);
    }
}

/// How a kind of redirection is written.
pub open spec fn sign(kind: RedirectKind) -> Seq<char> {
    match kind {
        RedirectKind::In => seq!['<'],
        RedirectKind::Out => seq!['>'],
        RedirectKind::Append => seq!['>', '>'],
        RedirectKind::ErrOut => seq!['2', '>'],
        RedirectKind::HereDoc => seq!['<', '<'],
        RedirectKind::HereDocStrip => seq!['<', '<', '-'],
    }
}

/// A redirection is its sign and its target, whitespace between them or not:
/// `<`, `>`, `>>` and `2>`. The delimiter of a here-document is kept as it is
/// written, whitespace in front of it included.
pub proof fn law_redirect_tokens(
    s: Seq<char>,
    i: int,
    kind: RedirectKind,
    gap: Seq<char>,
    target: Seq<char>,
    acc: Seq<TokenModel>,
)
    requires
        0 <= i,
        i + sign(kind).len() + gap.len() <= s.len(),
        s.subrange(i, i + sign(kind).len()) == sign(kind),
        s.subrange(i + sign(kind).len(), i + sign(kind).len() + gap.len()) == gap,
        textlaws::blank(gap),
        target.len() > 0,
        plain(target),
        kind == RedirectKind::HereDoc && gap.len() == 0 ==> target[0] != '-',
        stands(s, i + sign(kind).len() + gap.len(), target),
    ensures
        tokenizer::tokens_from(s, i, acc) == tokenizer::tokens_from(
            s,
            i + sign(kind).len() + gap.len() + target.len(),
            acc.push(
                TokenModel::Redirect(
                    kind,
                    if kind == RedirectKind::HereDoc || kind == RedirectKind::HereDocStrip {
                        gap + target
                    } else {
                        target
                    },
                ),
            ),
        ),
{
    let m = i + sign(kind).len();
    let at = m + gap.len();
    let end = at + target.len();
    assert(s[at] == s.subrange(at, end)[0]);
    assert(wordlaws::ordinary(target[0]));
    lemma_gap(s, m, gap, 0);
    assert(target.take(0) =~= Seq::<char>::empty());
    lemma_word_stands(s, at, target, 0);
    assert(tokenizer::spaced_word(s, m) == Ok::<(Seq<char>, int), Seq<char>>((target, end)));
    assert(s.subrange(m, end) =~= gap + target) by {
        assert forall|k: int| m <= k < end implies s[k] == (gap + target)[k - m] by {
            if k < at {
                assert(s[k] == s.subrange(m, at)[k - m]);
            } else {
                assert(s[k] == s.subrange(at, end)[k - at]);
            }
        }
    }
    let sg = sign(kind);
    assert(s[i] == s.subrange(i, m)[0] && s[i] == sg[0]);
    if sg.len() > 1 {
        assert(s[i + 1] == s.subrange(i, m)[1] && s[i + 1] == sg[1]);
    }
    if sg.len() > 2 {
        assert(s[i + 2] == s.subrange(i, m)[2] && s[i + 2] == sg[2]);
    }
    if gap.len() > 0 {
        assert(s[m] == s.subrange(m, at)[0]);
        assert(text::whitespace(s[m]));
    } else {
        assert(m == at);
    }
    let t = if kind == RedirectKind::HereDoc || kind == RedirectKind::HereDocStrip {
        gap + target
    } else {
        target
    };
    assert(tokenizer::lex_at(s, i) == tokenizer::LexedModel::Tok(
        TokenModel::Redirect(kind, t),
        end,
    ));
}

/// `$#` and `${#NAME}` are words: the `#` in them begins no comment.
pub proof fn law_counts_are_words(name: Seq<char>)
    requires
        plain(name),
    ensures
        tokenizer::tokens_of(seq!['$', '#']) == Ok::<Seq<TokenModel>, Seq<char>>(
            seq![TokenModel::Word(seq!['$', '#'])],
        ),
        tokenizer::tokens_of(seq!['$', '{', '#'] + name + seq!['}']) == Ok::<
            Seq<TokenModel>,
            Seq<char>,
        >(seq![TokenModel::Word(seq!['$', '{', '#'] + name + seq!['}'])]),
{
    let none = Seq::<char>::empty();
    let a = seq!['$', '#'];
    assert(none + a.subrange(0, 2) =~= a);
    reveal_with_fuel(tokenizer::word_from, 2);
    reveal_with_fuel(tokenizer::tokens_from, 2);
    assert(tokenizer::word_from(a, 0, none) == Ok::<(Seq<char>, int), Seq<char>>((a, 2)));
    assert(tokenizer::tokens_of(a) == Ok::<Seq<TokenModel>, Seq<char>>(
        Seq::empty().push(TokenModel::Word(a)),
    ));
    assert(Seq::empty().push(TokenModel::Word(a)) =~= seq![TokenModel::Word(a)]);
    let front = seq!['$', '{', '#'];
    let b = front + name + seq!['}'];
    assert(b[0] == '$' && b[1] == '{' && b[2] == '#');
    assert(none + b.subrange(0, 3) =~= front);
    assert(name.take(0) =~= none);
    assert(front + none =~= front);
    lemma_counted(b, front, name, 0);
    assert(tokenizer::word_from(b, 0, none) == Ok::<(Seq<char>, int), Seq<char>>(
        (b, b.len() as int),
    ));
    assert(tokenizer::tokens_of(b) == Ok::<Seq<TokenModel>, Seq<char>>(
        Seq::empty().push(TokenModel::Word(b)),
    ));
    assert(Seq::empty().push(TokenModel::Word(b)) =~= seq![TokenModel::Word(b)]);
}

proof fn lemma_counted(b: Seq<char>, front: Seq<char>, name: Seq<char>, k: int)
    requires
        b == front + name + seq!['}'],
        plain(name),
        0 <= k <= name.len(),
    ensures
        tokenizer::word_from(b, front.len() + k, front + name.take(k)) == Ok::<
            (Seq<char>, int),
            Seq<char>,
        >((b, b.len() as int)),
    decreases name.len() - k,
{
    let at = front.len() + k;
    let v = front + name.take(k);
    if k < name.len() {
        assert(b[at] == name[k]);
        assert(wordlaws::ordinary(name[k]));
        assert(v.push(name[k]) =~= front + name.take(k + 1));
        lemma_counted(b, front, name, k + 1);
        assert(tokenizer::word_piece(b, at, v) == Ok::<(Seq<char>, int), Seq<char>>(
            (v.push(name[k]), at + 1),
        ));
    } else {
        assert(b[at] == '}');
        assert(name.take(k) =~= name);
        assert(v.push('}') =~= b);
        assert(tokenizer::word_piece(b, at, v) == Ok::<(Seq<char>, int), Seq<char>>(
            (b, at + 1),
        ));
        assert(tokenizer::word_from(b, at + 1, b) == Ok::<(Seq<char>, int), Seq<char>>(
            (b, at + 1),
        ));
    }
}

// ---------------------------------------------------------------------------
// How far a command substitution goes.
// ---------------------------------------------------------------------------

/// A piece of a command, as far as its end is concerned.
pub enum Bit {
    /// A character that means nothing here.
    Plain(char),
    /// A backslash and the character that it protects.
    Escaped(char),
    /// A text in single quotes.
    Single(Seq<char>),
    /// A text in double quotes.
    Double(Box<Inner>),
    /// A command in parentheses.
    Group(Box<Bits>),
}

/// A text within double quotes: its characters, and with each whether a
/// backslash protects it.
pub enum Inner {
    End,
    Then { escaped: bool, c: char, rest: Box<Inner> },
}

impl Inner {
    /// The text as it is written.
    pub open spec fn written(self) -> Seq<char>
        decreases self,
    {
        match self {
            Inner::End => Seq::empty(),
            Inner::Then { escaped, c, rest } => (if escaped {
                seq!['\\', c]
            } else {
                seq![c]
            }) + rest.written(),
        }
    }

    /// A quote and a backslash are protected.
    pub open spec fn sound(self) -> bool
        decreases self,
    {
        match self {
            Inner::End => true,
            Inner::Then { escaped, c, rest } => (escaped || (c != '"' && c != '\\'))
                && rest.sound(),
        }
    }
}

/// A command, piece by piece.
pub enum Bits {
    End,
    Then(Bit, Box<Bits>),
}

impl Bit {
    /// The piece as it is written.
    pub open spec fn written(self) -> Seq<char>
        decreases self,
    {
        match self {
            Bit::Plain(c) => seq![c],
            Bit::Escaped(c) => seq!['\\', c],
            Bit::Single(t) => seq!['\''] + t + seq!['\''],
            Bit::Double(t) => seq!['"'] + t.written() + seq!['"'],
            Bit::Group(b) => seq!['('] + b.written() + seq![')'],
        }
    }

    /// The piece is what it says.
    pub open spec fn sound(self) -> bool
        decreases self,
    {
        match self {
            Bit::Plain(c) => c != '\\' && c != '\'' && c != '"' && c != '(' && c != ')',
            Bit::Escaped(c) => true,
            Bit::Single(t) => textlaws::lacks(t, '\''),
            Bit::Double(t) => t.sound(),
            Bit::Group(b) => b.sound(),
        }
    }
}

impl Bits {
    /// The command as it is written.
    pub open spec fn written(self) -> Seq<char>
        decreases self,
    {
        match self {
            Bits::End => Seq::empty(),
            Bits::Then(b, rest) => b.written() + rest.written(),
        }
    }

    /// The pieces are what they say.
    pub open spec fn sound(self) -> bool
        decreases self,
    {
        match self {
            Bits::End => true,
            Bits::Then(b, rest) => b.sound() && rest.sound(),
        }
    }
}

proof fn lemma_single_ends(s: Seq<char>, at: int, t: Seq<char>, k: int)
    requires
        textlaws::lacks(t, '\''),
        0 <= at,
        at + t.len() < s.len(),
        s.subrange(at, at + t.len()) == t,
        s[at + t.len()] == '\'',
        0 <= k <= t.len(),
    ensures
        tokenizer::after_single(s, at + k) == at + t.len() + 1,
    decreases t.len() - k,
{
    if k < t.len() {
        assert(s[at + k] == s.subrange(at, at + t.len())[k]);
        lemma_single_ends(s, at, t, k + 1);
    }
}

proof fn lemma_double_ends(s: Seq<char>, at: int, t: Inner)
    requires
        t.sound(),
        0 <= at,
        at + t.written().len() < s.len(),
        s.subrange(at, at + t.written().len()) == t.written(),
        s[at + t.written().len()] == '"',
    ensures
        tokenizer::after_double(s, at) == at + t.written().len() + 1,
    decreases t,
{
    match t {
        Inner::End => {},
        Inner::Then { escaped, c, rest } => {
            let w = t.written();
            let n: int = if escaped {
                2
            } else {
                1
            };
            assert(s[at] == s.subrange(at, at + w.len())[0]);
            if escaped {
                assert(s[at + 1] == s.subrange(at, at + w.len())[1]);
            }
            assert(w.skip(n) =~= rest.written());
            assert(s.subrange(at + n, at + w.len()) =~= s.subrange(at, at + w.len()).skip(n));
            lemma_double_ends(s, at + n, *rest);
        },
    }
}

proof fn lemma_bit_passed(b: Bit, s: Seq<char>, pre: Seq<char>, post: Seq<char>, depth: nat)
    requires
        b.sound(),
        s == pre + b.written() + post,
        depth >= 1,
    ensures
        tokenizer::subst_end(s, pre.len() as int, depth) == tokenizer::subst_end(
            s,
            (pre.len() + b.written().len()) as int,
            depth,
        ),
    decreases b,
{
    let j = pre.len() as int;
    let w = b.written();
    match b {
        Bit::Plain(c) => {
            assert(s[j] == c);
        },
        Bit::Escaped(c) => {
            assert(s[j] == '\\' && s[j + 1] == c);
        },
        Bit::Single(t) => {
            assert(s[j] == '\'');
            assert(s.subrange(j + 1, j + 1 + t.len()) =~= t);
            assert(s[j + 1 + t.len()] == '\'');
            lemma_single_ends(s, j + 1, t, 0);
        },
        Bit::Double(t) => {
            let x = t.written();
            assert(s[j] == '"');
            assert(s.subrange(j + 1, j + 1 + x.len()) =~= x);
            assert(s[j + 1 + x.len()] == '"');
            lemma_double_ends(s, j + 1, *t);
        },
        Bit::Group(inner) => {
            let x = inner.written();
            assert(s[j] == '(');
            let pre2 = pre + seq!['('];
            let post2 = seq![')'] + post;
            assert(s =~= pre2 + x + post2);
            lemma_bits_passed(*inner, s, pre2, post2, depth + 1);
            let k = j + 1 + x.len();
            assert(s[k] == ')');
            assert(tokenizer::subst_end(s, k, depth + 1) == tokenizer::subst_end(s, k + 1, depth));
        },
    }
}

proof fn lemma_bits_passed(b: Bits, s: Seq<char>, pre: Seq<char>, post: Seq<char>, depth: nat)
    requires
        b.sound(),
        s == pre + b.written() + post,
        depth >= 1,
    ensures
        tokenizer::subst_end(s, pre.len() as int, depth) == tokenizer::subst_end(
            s,
            (pre.len() + b.written().len()) as int,
            depth,
        ),
    decreases b,
{
    match b {
        Bits::End => {},
        Bits::Then(first, rest) => {
            let x = first.written();
            let y = rest.written();
            assert(s =~= pre + x + (y + post));
            lemma_bit_passed(first, s, pre, y + post, depth);
            assert(s =~= (pre + x) + y + post);
            lemma_bits_passed(*rest, s, pre + x, post, depth);
        },
    }
}

/// A command substitution ends at the parenthesis that belongs to the one that
/// opens it: parentheses in pairs, escaped characters and quoted texts are part
/// of the command. So `$(...)` around such a command is one word, which
/// substitutes exactly that command.
pub proof fn law_substitution_extent(b: Bits)
    requires
        b.sound(),
    ensures
        interpolation::closed_command(b.written()) || (b.written().len() > 0 && b.written()[0]
            == '('),
        tokenizer::tokens_of(seq!['$', '('] + b.written() + seq![')']) == Ok::<
            Seq<TokenModel>,
            Seq<char>,
        >(seq![TokenModel::Word(seq!['$', '('] + b.written() + seq![')'])]),
{
    let c = b.written();
    let none = Seq::<char>::empty();
    let open = seq!['$', '('];
    let s = open + c + seq![')'];
    lemma_bits_passed(b, s, open, seq![')'], 1);
    let end = (c.len() + 2) as int;
    assert(s[end] == ')');
    assert(tokenizer::subst_end(s, 2, 1) == Some(end));
    assert(s[0] == '$' && s[1] == '(');
    assert(none + s.subrange(0, end + 1) =~= s);
    reveal_with_fuel(tokenizer::word_from, 2);
    reveal_with_fuel(tokenizer::tokens_from, 2);
    assert(tokenizer::word_from(s, 0, none) == Ok::<(Seq<char>, int), Seq<char>>(
        (s, s.len() as int),
    ));
    assert(tokenizer::tokens_of(s) == Ok::<Seq<TokenModel>, Seq<char>>(
        Seq::empty().push(TokenModel::Word(s)),
    ));
    assert(Seq::empty().push(TokenModel::Word(s)) =~= seq![TokenModel::Word(s)]);
}

// ---------------------------------------------------------------------------
// Backquotes and parameters in double quotes.
// ---------------------------------------------------------------------------

proof fn lemma_backquote_plain(s: Seq<char>, at: int, t: Seq<char>, k: int, w: Seq<char>)
    requires
        textlaws::lacks(t, '`'),
        textlaws::lacks(t, '\\'),
        0 <= at,
        at + t.len() <= s.len(),
        s.subrange(at, at + t.len()) == t,
        0 <= k <= t.len(),
    ensures
        tokenizer::backtick_from(s, at + k, w) == tokenizer::backtick_from(
            s,
            at + t.len(),
            w + t.skip(k),
        ),
    decreases t.len() - k,
{
    if k < t.len() {
        assert(s[at + k] == s.subrange(at, at + t.len())[k]);
        lemma_backquote_plain(s, at, t, k + 1, w.push(t[k]));
        assert(w.push(t[k]) + t.skip(k + 1) =~= w + t.skip(k));
    } else {
        assert(w + t.skip(k) =~= w);
    }
}

/// Between backquotes a backslash stands for the character behind it, a
/// backquote too.
pub proof fn law_backquoted_escapes(a: Seq<char>, c: char, b: Seq<char>)
    requires
        textlaws::lacks(a, '`'),
        textlaws::lacks(a, '\\'),
        textlaws::lacks(b, '`'),
        textlaws::lacks(b, '\\'),
    ensures
        tokenizer::tokens_of(seq!['`'] + a + seq!['\\', c] + b + seq!['`']) == Ok::<
            Seq<TokenModel>,
            Seq<char>,
        >(seq![TokenModel::Word(seq!['$', '('] + a + seq![c] + b + seq![')'])]),
{
    let none = Seq::<char>::empty();
    let s = seq!['`'] + a + seq!['\\', c] + b + seq!['`'];
    let m = (1 + a.len()) as int;
    let n = m + 2 + b.len();
    assert(s[0] == '`');
    assert(s.subrange(1, m) =~= a);
    lemma_backquote_plain(s, 1, a, 0, none);
    assert(none + a.skip(0) =~= a);
    assert(s[m] == '\\' && s[m + 1] == c);
    assert(s.subrange(m + 2, n) =~= b);
    lemma_backquote_plain(s, m + 2, b, 0, a.push(c));
    assert(b.skip(0) =~= b);
    assert(s[n] == '`');
    let inner = a.push(c) + b;
    assert(tokenizer::backtick_from(s, n, inner) == Some((inner, n + 1)));
    assert(tokenizer::backtick_from(s, 1, none) == Some((inner, n + 1)));
    let w = seq!['$', '('] + a + seq![c] + b + seq![')'];
    assert(none + seq!['$', '('] + inner + seq![')'] =~= w);
    reveal_with_fuel(tokenizer::word_from, 2);
    reveal_with_fuel(tokenizer::tokens_from, 2);
    assert(tokenizer::word_from(s, 0, none) == Ok::<(Seq<char>, int), Seq<char>>((w, n + 1)));
    assert(tokenizer::tokens_of(s) == Ok::<Seq<TokenModel>, Seq<char>>(
        Seq::empty().push(TokenModel::Word(w)),
    ));
    assert(Seq::empty().push(TokenModel::Word(w)) =~= seq![TokenModel::Word(w)]);
}

/// In double quotes a parameter is remembered as quoted: `$1`, `$@`, `$#` and
/// `$?` as well as variables.
pub proof fn law_quoted_signs(c: char)
    requires
        text::ascii_digit(c) || c == '@' || c == '#' || c == '?',
    ensures
        tokenizer::tokens_of(seq!['"', '$', c, '"']) == Ok::<Seq<TokenModel>, Seq<char>>(
            seq![TokenModel::Word(seq!['$', MARK, c])],
        ),
{
    let none = Seq::<char>::empty();
    let s = seq!['"', '$', c, '"'];
    let w = seq!['$', MARK, c];
    reveal_with_fuel(tokenizer::double_from, 4);
    if c == '?' {
        assert(none + tokenizer::double_quoted('$') + tokenizer::double_quoted(c) =~= w);
        assert(tokenizer::double_from(s, 3, w) == Some((w, 4int)));
        assert(tokenizer::double_from(s, 2, none + tokenizer::double_quoted('$')) == Some(
            (w, 4int),
        ));
    } else {
        assert(none + seq!['$', MARK] + tokenizer::double_quoted(c) =~= w);
        assert(tokenizer::double_from(s, 3, w) == Some((w, 4int)));
        assert(tokenizer::double_from(s, 2, none + seq!['$', MARK]) == Some((w, 4int)));
    }
    assert(tokenizer::double_from(s, 1, none) == Some((w, 4int)));
    reveal_with_fuel(tokenizer::word_from, 2);
    reveal_with_fuel(tokenizer::tokens_from, 2);
    assert(tokenizer::word_from(s, 0, none) == Ok::<(Seq<char>, int), Seq<char>>((w, 4)));
    assert(tokenizer::tokens_of(s) == Ok::<Seq<TokenModel>, Seq<char>>(
        Seq::empty().push(TokenModel::Word(w)),
    ));
    assert(Seq::empty().push(TokenModel::Word(w)) =~= seq![TokenModel::Word(w)]);
}

// ---------------------------------------------------------------------------
// Words made of several pieces.
// ---------------------------------------------------------------------------

/// A piece of a word.
pub enum Chunk {
    /// An ordinary character.
    Plain(char),
    /// A backslash and the character that it protects.
    Escaped(char),
    /// A text in single quotes.
    Single(Seq<char>),
    /// A text in double quotes.
    Double(Seq<char>),
}

/// A word, piece by piece.
pub enum Chunks {
    End,
    Then(Chunk, Box<Chunks>),
}

impl Chunk {
    /// The piece as it is written.
    pub open spec fn written(self) -> Seq<char> {
        match self {
            Chunk::Plain(c) => seq![c],
            Chunk::Escaped(c) => seq!['\\', c],
            Chunk::Single(t) => seq!['\''] + t + seq!['\''],
            Chunk::Double(t) => seq!['"'] + t + seq!['"'],
        }
    }

    /// The text that the piece stands for.
    pub open spec fn meant(self) -> Seq<char> {
        match self {
            Chunk::Plain(c) => seq![c],
            Chunk::Escaped(c) => seq![c],
            Chunk::Single(t) => t,
            Chunk::Double(t) => t,
        }
    }

    /// The piece is what it says.
    pub open spec fn sound(self) -> bool {
        match self {
            Chunk::Plain(c) => wordlaws::ordinary(c),
            Chunk::Escaped(c) => true,
            Chunk::Single(t) => textlaws::lacks(t, '\''),
            Chunk::Double(t) => textlaws::lacks(t, '"') && textlaws::lacks(t, '\\')
                && textlaws::lacks(t, '$'),
        }
    }
}

impl Chunks {
    /// The word as it is written.
    pub open spec fn written(self) -> Seq<char>
        decreases self,
    {
        match self {
            Chunks::End => Seq::empty(),
            Chunks::Then(first, rest) => first.written() + rest.written(),
        }
    }

    /// The text that the word stands for.
    pub open spec fn meant(self) -> Seq<char>
        decreases self,
    {
        match self {
            Chunks::End => Seq::empty(),
            Chunks::Then(first, rest) => first.meant() + rest.meant(),
        }
    }

    /// The pieces are what they say.
    pub open spec fn sound(self) -> bool
        decreases self,
    {
        match self {
            Chunks::End => true,
            Chunks::Then(first, rest) => first.sound() && rest.sound(),
        }
    }
}

/// A text as a word holds it.
pub open spec fn kept(t: Seq<char>) -> Seq<char> {
    quoting::encoded(t, quoting::literal_marks())
}

proof fn lemma_kept_from(a: Seq<char>, b: Seq<char>, i: int)
    requires
        0 <= i <= a.len(),
    ensures
        quoting::encoded_from(a + b, i, quoting::literal_marks()) == quoting::encoded_from(
            a,
            i,
            quoting::literal_marks(),
        ) + kept(b),
    decreases a.len() - i,
{
    let marks = quoting::literal_marks();
    if i < a.len() {
        assert((a + b)[i] == a[i]);
        lemma_kept_from(a, b, i + 1);
        let one = quoting::encoded_char(a[i], marks);
        assert(one + (quoting::encoded_from(a, i + 1, marks) + kept(b)) =~= one
            + quoting::encoded_from(a, i + 1, marks) + kept(b));
    } else {
        lemma_kept_end(a, b, 0);
        assert(quoting::encoded_from(a, i, marks) + kept(b) =~= kept(b));
    }
}

proof fn lemma_kept_end(a: Seq<char>, b: Seq<char>, i: int)
    requires
        0 <= i <= b.len(),
    ensures
        quoting::encoded_from(a + b, a.len() + i, quoting::literal_marks())
            == quoting::encoded_from(b, i, quoting::literal_marks()),
    decreases b.len() - i,
{
    if i < b.len() {
        assert((a + b)[a.len() + i] == b[i]);
        lemma_kept_end(a, b, i + 1);
    }
}

proof fn lemma_single_kept(s: Seq<char>, at: int, t: Seq<char>, k: int, w: Seq<char>)
    requires
        textlaws::lacks(t, '\''),
        0 <= at,
        at + t.len() < s.len(),
        s.subrange(at, at + t.len()) == t,
        s[at + t.len()] == '\'',
        0 <= k <= t.len(),
    ensures
        tokenizer::single_from(s, at + k, w) == Some(
            (
                w + quoting::encoded_from(t, k, quoting::literal_marks()),
                at + t.len() + 1,
            ),
        ),
    decreases t.len() - k,
{
    let marks = quoting::literal_marks();
    if k < t.len() {
        assert(s[at + k] == s.subrange(at, at + t.len())[k]);
        let e = tokenizer::literal(t[k]);
        lemma_single_kept(s, at, t, k + 1, w + e);
        assert(w + e + quoting::encoded_from(t, k + 1, marks) =~= w + quoting::encoded_from(
            t,
            k,
            marks,
        ));
    } else {
        assert(w + quoting::encoded_from(t, k, marks) =~= w);
    }
}

proof fn lemma_double_kept(s: Seq<char>, at: int, t: Seq<char>, k: int, w: Seq<char>)
    requires
        textlaws::lacks(t, '"'),
        textlaws::lacks(t, '\\'),
        textlaws::lacks(t, '$'),
        0 <= at,
        at + t.len() < s.len(),
        s.subrange(at, at + t.len()) == t,
        s[at + t.len()] == '"',
        0 <= k <= t.len(),
    ensures
        tokenizer::double_from(s, at + k, w) == Some(
            (
                w + quoting::encoded_from(t, k, quoting::literal_marks()),
                at + t.len() + 1,
            ),
        ),
    decreases t.len() - k,
{
    let marks = quoting::literal_marks();
    if k < t.len() {
        assert(s[at + k] == s.subrange(at, at + t.len())[k]);
        let e = tokenizer::double_quoted(t[k]);
        lemma_double_kept(s, at, t, k + 1, w + e);
        assert(w + e + quoting::encoded_from(t, k + 1, marks) =~= w + quoting::encoded_from(
            t,
            k,
            marks,
        ));
    } else {
        assert(w + quoting::encoded_from(t, k, marks) =~= w);
    }
}

proof fn lemma_chunk_read(b: Chunk, s: Seq<char>, pre: Seq<char>, post: Seq<char>, w: Seq<char>)
    requires
        b.sound(),
        s == pre + b.written() + post,
    ensures
        !tokenizer::ends_word(s[pre.len() as int]),
        tokenizer::word_piece(s, pre.len() as int, w) == Ok::<(Seq<char>, int), Seq<char>>(
            (w + kept(b.meant()), (pre.len() + b.written().len()) as int),
        ),
{
    let i = pre.len() as int;
    let marks = quoting::literal_marks();
    match b {
        Chunk::Plain(c) => {
            assert(s[i] == c);
            reveal_with_fuel(quoting::encoded_from, 2);
            assert(kept(seq![c]) =~= seq![c]);
            assert(w + seq![c] =~= w.push(c));
        },
        Chunk::Escaped(c) => {
            assert(s[i] == '\\' && s[i + 1] == c);
            reveal_with_fuel(quoting::encoded_from, 2);
            assert(kept(seq![c]) =~= tokenizer::literal(c));
        },
        Chunk::Single(t) => {
            assert(s[i] == '\'');
            assert(s.subrange(i + 1, i + 1 + t.len()) =~= t);
            assert(s[i + 1 + t.len()] == '\'');
            lemma_single_kept(s, i + 1, t, 0, w);
        },
        Chunk::Double(t) => {
            assert(s[i] == '"');
            assert(s.subrange(i + 1, i + 1 + t.len()) =~= t);
            assert(s[i + 1 + t.len()] == '"');
            lemma_double_kept(s, i + 1, t, 0, w);
        },
    }
}

proof fn lemma_chunks_read(b: Chunks, s: Seq<char>, pre: Seq<char>, w: Seq<char>)
    requires
        b.sound(),
        s == pre + b.written(),
    ensures
        tokenizer::word_from(s, pre.len() as int, w) == Ok::<(Seq<char>, int), Seq<char>>(
            (w + kept(b.meant()), s.len() as int),
        ),
    decreases b,
{
    match b {
        Chunks::End => {
            assert(w + kept(Seq::empty()) =~= w);
        },
        Chunks::Then(first, rest) => {
            let x = first.written();
            let y = rest.written();
            assert(s =~= pre + x + y);
            lemma_chunk_read(first, s, pre, y, w);
            assert(s =~= (pre + x) + y);
            lemma_chunks_read(*rest, s, pre + x, w + kept(first.meant()));
            lemma_kept_from(first.meant(), rest.meant(), 0);
            assert(w + kept(first.meant()) + kept(rest.meant()) =~= w + kept(b.meant()));
        },
    }
}

/// Pieces that stand side by side make one word, however they are quoted, and
/// it stands for their texts one behind the other: the argument is exactly
/// that, in one piece, whatever the state and the file system hold.
pub proof fn law_pieces_make_one_word(
    b: Chunks,
    outputs: Seq<Seq<char>>,
    sc: arith::Scope,
    status: int,
    command: bool,
    paths: Seq<Seq<char>>,
)
    requires
        b.sound(),
        b.meant().len() > 0,
    ensures
        tokenizer::tokens_of(b.written()) == Ok::<Seq<TokenModel>, Seq<char>>(
            seq![TokenModel::Word(kept(b.meant()))],
        ),
        expand::resolved(kept(b.meant()), outputs, sc, status) == (kept(b.meant()), sc.vars),
        expand::plan_words(expand::plan_of(kept(b.meant()), command), paths) == seq![b.meant()],
{
    let s = b.written();
    let none = Seq::<char>::empty();
    let w = kept(b.meant());
    assert(s =~= none + s);
    lemma_chunks_read(b, s, none, none);
    assert(none + w =~= w);
    lemma_first_char(b);
    assert(tokenizer::lex_at(s, 0) == tokenizer::LexedModel::Tok(
        TokenModel::Word(w),
        s.len() as int,
    ));
    reveal_with_fuel(tokenizer::tokens_from, 2);
    assert(tokenizer::tokens_of(s) == Ok::<Seq<TokenModel>, Seq<char>>(
        Seq::empty().push(TokenModel::Word(w)),
    ));
    assert(Seq::empty().push(TokenModel::Word(w)) =~= seq![TokenModel::Word(w)]);
    quoting::law_marked_text_is_literal(
        b.meant(),
        quoting::literal_marks(),
        outputs,
        sc,
        status,
        command,
        paths,
    );
}

proof fn lemma_first_char(b: Chunks)
    requires
        b.sound(),
        b.meant().len() > 0,
    ensures
        ({
            let s = b.written();
            &&& s.len() > 0
            &&& wordlaws::ordinary(s[0]) || s[0] == '\\' || s[0] == '\'' || s[0] == '"'
            &&& s[0] == '2' && s.len() > 1 ==> s[1] != '>'
        }),
{
    match b {
        Chunks::End => {
            assert(b.meant().len() == 0);
        },
        Chunks::Then(first, rest) => {
            let s = b.written();
            let x = first.written();
            let y = rest.written();
            assert(s == x + y);
            assert(x.len() > 0);
            assert(s[0] == x[0]);
            assert(first.sound());
            if s[0] == '2' && s.len() > 1 {
                assert(first is Plain);
                assert(s[1] == y[0]);
                match *rest {
                    Chunks::End => {
                        assert(y.len() == 0);
                    },
                    Chunks::Then(second, _) => {
                        assert(rest.sound());
                        assert(second.sound());
                        assert(second.written().len() > 0);
                        assert(y[0] == second.written()[0]);
                    },
                }
            }
        },
    }
}

proof fn lemma_double_prefix(s: Seq<char>, at: int, t: Seq<char>, k: int, w: Seq<char>)
    requires
        textlaws::lacks(t, '"'),
        textlaws::lacks(t, '\\'),
        textlaws::lacks(t, '$'),
        0 <= at,
        at + t.len() <= s.len(),
        s.subrange(at, at + t.len()) == t,
        0 <= k <= t.len(),
    ensures
        tokenizer::double_from(s, at + k, w) == tokenizer::double_from(
            s,
            at + t.len(),
            w + quoting::encoded_from(t, k, quoting::literal_marks()),
        ),
    decreases t.len() - k,
{
    let marks = quoting::literal_marks();
    if k < t.len() {
        assert(s[at + k] == s.subrange(at, at + t.len())[k]);
        let e = tokenizer::double_quoted(t[k]);
        lemma_double_prefix(s, at, t, k + 1, w + e);
        assert(w + e + quoting::encoded_from(t, k + 1, marks) =~= w + quoting::encoded_from(
            t,
            k,
            marks,
        ));
    } else {
        assert(w + quoting::encoded_from(t, k, marks) =~= w);
    }
}

/// What a backslash and a character stand for in double quotes: the character
/// alone where it is `"`, `\` or `$`, and both of them otherwise.
pub open spec fn escaped_in_quotes(c: char) -> Seq<char> {
    if c == '"' || c == '\\' || c == '$' {
        seq![c]
    } else {
        seq!['\\', c]
    }
}

/// In double quotes a backslash protects `"`, `\` and `$`, and is a character
/// like any other in front of anything else.
pub proof fn law_escapes_in_quotes(a: Seq<char>, c: char, b: Seq<char>)
    requires
        textlaws::lacks(a, '"'),
        textlaws::lacks(a, '\\'),
        textlaws::lacks(a, '$'),
        textlaws::lacks(b, '"'),
        textlaws::lacks(b, '\\'),
        textlaws::lacks(b, '$'),
    ensures
        tokenizer::tokens_of(seq!['"'] + a + seq!['\\', c] + b + seq!['"']) == Ok::<
            Seq<TokenModel>,
            Seq<char>,
        >(seq![TokenModel::Word(kept(a + escaped_in_quotes(c) + b))]),
{
    let none = Seq::<char>::empty();
    let s = seq!['"'] + a + seq!['\\', c] + b + seq!['"'];
    let m = (1 + a.len()) as int;
    let n = m + 2 + b.len();
    let mid = escaped_in_quotes(c);
    assert(s[0] == '"');
    assert(s.subrange(1, m) =~= a);
    lemma_double_prefix(s, 1, a, 0, none);
    assert(none + kept(a) =~= kept(a));
    assert(s[m] == '\\' && s[m + 1] == c);
    reveal_with_fuel(quoting::encoded_from, 3);
    let w = kept(a) + kept(mid);
    if c == '"' || c == '\\' || c == '$' {
        assert(kept(mid) =~= tokenizer::literal(c));
    } else {
        assert(kept(mid) =~= tokenizer::double_quoted('\\') + tokenizer::double_quoted(c));
        assert(kept(a) + tokenizer::double_quoted('\\') + tokenizer::double_quoted(c) =~= w);
        assert(tokenizer::double_from(s, m, kept(a)) == tokenizer::double_from(
            s,
            m + 1,
            kept(a) + tokenizer::double_quoted('\\'),
        ));
    }
    assert(tokenizer::double_from(s, m, kept(a)) == tokenizer::double_from(s, m + 2, w));
    assert(s.subrange(m + 2, n) =~= b);
    assert(s[n] == '"');
    lemma_double_kept(s, m + 2, b, 0, w);
    lemma_kept_from(a, mid, 0);
    lemma_kept_from(a + mid, b, 0);
    let all = kept(a + mid + b);
    assert(w + kept(b) =~= all);
    assert(tokenizer::double_from(s, 1, none) == Some((all, n + 1)));
    reveal_with_fuel(tokenizer::word_from, 2);
    reveal_with_fuel(tokenizer::tokens_from, 2);
    assert(tokenizer::word_from(s, 0, none) == Ok::<(Seq<char>, int), Seq<char>>((all, n + 1)));
    assert(tokenizer::tokens_of(s) == Ok::<Seq<TokenModel>, Seq<char>>(
        Seq::empty().push(TokenModel::Word(all)),
    ));
    assert(Seq::empty().push(TokenModel::Word(all)) =~= seq![TokenModel::Word(all)]);
}

/// A quote, a backquote or a `$(` that is never closed is an error that says
/// so.
pub proof fn law_unclosed_quotes(t: Seq<char>)
    requires
        textlaws::lacks(t, '\''),
        textlaws::lacks(t, '"'),
        textlaws::lacks(t, '`'),
        textlaws::lacks(t, '\\'),
        textlaws::lacks(t, '$'),
        textlaws::lacks(t, ')'),
        textlaws::lacks(t, '('),
    ensures
        tokenizer::tokens_of(seq!['\''] + t) == Err::<Seq<TokenModel>, Seq<char>>(
            "unclosed single quote"@,
        ),
        tokenizer::tokens_of(seq!['"'] + t) == Err::<Seq<TokenModel>, Seq<char>>(
            "unclosed double quote"@,
        ),
        tokenizer::tokens_of(seq!['`'] + t) == Err::<Seq<TokenModel>, Seq<char>>(
            "unclosed backtick (`)"@,
        ),
        tokenizer::tokens_of(seq!['$', '('] + t) == Err::<Seq<TokenModel>, Seq<char>>(
            "unclosed $(...)"@,
        ),
{
    let none = Seq::<char>::empty();
    let a = seq!['\''] + t;
    lemma_single_open(a, 1, none);
    assert(a[0] == '\'');
    let b = seq!['"'] + t;
    assert(b.subrange(1, b.len() as int) =~= t);
    lemma_double_prefix(b, 1, t, 0, none);
    assert(b[0] == '"');
    let c = seq!['`'] + t;
    assert(c.subrange(1, c.len() as int) =~= t);
    lemma_backquote_plain(c, 1, t, 0, none);
    assert(c[0] == '`');
    let d = seq!['$', '('] + t;
    assert(d[0] == '$' && d[1] == '(');
    lemma_subst_open(d, 2, 1);
    reveal_with_fuel(tokenizer::word_from, 2);
}

proof fn lemma_single_open(s: Seq<char>, i: int, w: Seq<char>)
    requires
        1 <= i <= s.len(),
        forall|k: int| 1 <= k < s.len() ==> #[trigger] s[k] != '\'',
    ensures
        tokenizer::single_from(s, i, w) is None,
    decreases s.len() - i,
{
    if i < s.len() {
        lemma_single_open(s, i + 1, w + tokenizer::literal(s[i]));
    }
}

proof fn lemma_subst_open(s: Seq<char>, i: int, depth: nat)
    requires
        2 <= i <= s.len(),
        forall|k: int|
            2 <= k < s.len() ==> #[trigger] s[k] != '\'' && s[k] != '"' && s[k] != '\\' && s[k]
                != '(' && s[k] != ')',
    ensures
        tokenizer::subst_end(s, i, depth) is None,
    decreases s.len() - i,
{
    if i < s.len() {
        lemma_subst_open(s, i + 1, depth);
    }
}

} // verus!
