//! Laws of interpolation: parameters and commands within double quotes, and
//! unquoted ones, whose results split into fields.

use crate::arith;
use crate::expand;
use crate::lexlaws;
use crate::quoting;
use crate::text;
use crate::tokenizer;
use crate::tokenizer::MARK;
use crate::vars;
use crate::wordlaws;
use vstd::prelude::*;

verus! {

// ---------------------------------------------------------------------------
// Marked texts in pieces.
// ---------------------------------------------------------------------------

proof fn lemma_encoded_joined(a: Seq<char>, b: Seq<char>, i: int, marks: spec_fn(char) -> bool)
    requires
        0 <= i <= a.len(),
    ensures
        quoting::encoded_from(a + b, i, marks) == quoting::encoded_from(a, i, marks)
            + quoting::encoded(b, marks),
    decreases a.len() - i,
{
    if i == a.len() {
        lemma_encoded_shifted(a, b, 0, marks);
        assert(quoting::encoded_from(a, i, marks) + quoting::encoded(b, marks)
            =~= quoting::encoded(b, marks));
    } else {
        lemma_encoded_joined(a, b, i + 1, marks);
        assert((a + b)[i] == a[i]);
        assert(quoting::encoded_from(a + b, i, marks) =~= quoting::encoded_from(a, i, marks)
            + quoting::encoded(b, marks));
    }
}

proof fn lemma_encoded_shifted(a: Seq<char>, b: Seq<char>, i: int, marks: spec_fn(char) -> bool)
    requires
        0 <= i <= b.len(),
    ensures
        quoting::encoded_from(a + b, a.len() + i, marks) == quoting::encoded_from(b, i, marks),
    decreases b.len() - i,
{
    if i < b.len() {
        lemma_encoded_shifted(a, b, i + 1, marks);
        assert((a + b)[a.len() + i] == b[i]);
    }
}

// ---------------------------------------------------------------------------
// Double quotes.
// ---------------------------------------------------------------------------

/// A part of what stands between double quotes: text, a parameter in braces,
/// or a command.
pub enum Part {
    Text(Seq<char>),
    Param(Seq<char>),
    Command(Seq<char>),
}

/// A parameter in braces.
pub open spec fn in_braces(inner: Seq<char>) -> Seq<char> {
    seq!['$', '{'] + inner + seq!['}']
}

/// A command in `$(...)`.
pub open spec fn in_parens(c: Seq<char>) -> Seq<char> {
    seq!['$', '('] + c + seq![')']
}

/// A command that its own parenthesis closes, and that does not begin like
/// arithmetic.
pub open spec fn closed_command(c: Seq<char>) -> bool {
    &&& tokenizer::subst_end(in_parens(c), 2, 1) == Some((c.len() + 2) as int)
    &&& c.len() > 0 ==> c[0] != '('
}

/// Neither a quote nor a backslash nor a `$` occurs in a text.
pub open spec fn unquoted(t: Seq<char>) -> bool {
    quoting::free_of(t, '"') && quoting::free_of(t, '\\') && quoting::free_of(t, '$')
}

impl Part {
    /// The part as it is written.
    pub open spec fn written(self) -> Seq<char> {
        match self {
            Part::Text(t) => t,
            Part::Param(inner) => in_braces(inner),
            Part::Command(c) => in_parens(c),
        }
    }

    /// The part within its token.
    pub open spec fn word(self) -> Seq<char> {
        match self {
            Part::Text(t) => quoting::encoded(t, quoting::literal_marks()),
            Part::Param(inner) => seq!['$', MARK, '{'] + quoting::encoded(
                inner,
                quoting::literal_marks(),
            ) + seq!['}'],
            Part::Command(c) => seq!['$', MARK, '('] + c + seq![')'],
        }
    }

    /// A text, and what stands between the braces of a parameter, hold no
    /// quote, backslash or `$`; no brace closes a parameter early, and the
    /// parenthesis of a command closes it.
    pub open spec fn sound(self) -> bool {
        match self {
            Part::Text(t) => unquoted(t),
            Part::Param(inner) => unquoted(inner) && quoting::free_of(inner, '}'),
            Part::Command(c) => closed_command(c),
        }
    }
}

/// The parts as they are written.
pub open spec fn written(parts: Seq<Part>) -> Seq<char>
    decreases parts.len(),
{
    if parts.len() == 0 {
        Seq::empty()
    } else {
        parts[0].written() + written(parts.skip(1))
    }
}

/// The parts within their token.
pub open spec fn word(parts: Seq<Part>) -> Seq<char>
    decreases parts.len(),
{
    if parts.len() == 0 {
        Seq::empty()
    } else {
        parts[0].word() + word(parts.skip(1))
    }
}

/// The commands among the parts, in order.
pub open spec fn commands(parts: Seq<Part>) -> Seq<Seq<char>>
    decreases parts.len(),
{
    if parts.len() == 0 {
        Seq::empty()
    } else {
        match parts[0] {
            Part::Command(c) => seq![c] + commands(parts.skip(1)),
            _ => commands(parts.skip(1)),
        }
    }
}

/// What the parts stand for, and the variables afterwards: a text for itself,
/// a parameter for its value, a command for its output. The output of the
/// first command is the `n`th one.
pub open spec fn value(parts: Seq<Part>, outputs: Seq<Seq<char>>, n: int, sc: arith::Scope) -> (
    Seq<char>,
    vars::VarsModel,
)
    decreases parts.len(),
{
    if parts.len() == 0 {
        (Seq::empty(), sc.vars)
    } else {
        let rest = parts.skip(1);
        match parts[0] {
            Part::Text(t) => {
                let (v, vars) = value(rest, outputs, n, sc);
                (t + v, vars)
            },
            Part::Param(inner) => {
                let (t, after) = expand::braced(inner, sc);
                let (v, vars) = value(
                    rest,
                    outputs,
                    n,
                    arith::Scope { vars: after, positional: sc.positional },
                );
                (t + v, vars)
            },
            Part::Command(_) => {
                let (v, vars) = value(rest, outputs, n + 1, sc);
                (expand::output_of(outputs, n) + v, vars)
            },
        }
    }
}

/// The parts within their token, with the outputs of the commands in place.
spec fn filled(parts: Seq<Part>, outputs: Seq<Seq<char>>, n: int) -> Seq<char>
    decreases parts.len(),
{
    if parts.len() == 0 {
        Seq::empty()
    } else {
        match parts[0] {
            Part::Command(_) => quoting::encoded(
                expand::output_of(outputs, n),
                quoting::literal_marks(),
            ) + filled(parts.skip(1), outputs, n + 1),
            _ => parts[0].word() + filled(parts.skip(1), outputs, n),
        }
    }
}

/// Every part is sound.
pub open spec fn sound(parts: Seq<Part>) -> bool {
    forall|k: int| 0 <= k < parts.len() ==> (#[trigger] parts[k]).sound()
}

proof fn lemma_tail_sound(parts: Seq<Part>)
    requires
        sound(parts),
        parts.len() > 0,
    ensures
        parts[0].sound(),
        sound(parts.skip(1)),
{
    let rest = parts.skip(1);
    assert forall|k: int| 0 <= k < rest.len() implies (#[trigger] rest[k]).sound() by {
        assert(rest[k] == parts[k + 1]);
    }
}

proof fn lemma_free_joined(a: Seq<char>, b: Seq<char>, c: char)
    requires
        quoting::free_of(a, c),
        quoting::free_of(b, c),
    ensures
        quoting::free_of(a + b, c),
{
    assert forall|k: int| 0 <= k < (a + b).len() implies #[trigger] (a + b)[k] != c by {
        if k < a.len() {
            assert((a + b)[k] == a[k]);
        } else {
            assert((a + b)[k] == b[k - a.len()]);
        }
    }
}

/// The command of a part is closed where the part ends, and not before.
proof fn lemma_command_closed(s: Seq<char>, pre: Seq<char>, c: Seq<char>, post: Seq<char>)
    requires
        closed_command(c),
        s == pre + (c + seq![')']) + post,
    ensures
        tokenizer::subst_end(s, pre.len() as int, 1) == Some((pre.len() + c.len()) as int),
{
    let x = c + seq![')'];
    let none = Seq::<char>::empty();
    let two = seq!['$', '('];
    assert(in_parens(c) =~= two + x);
    lexlaws::lemma_subst_behind(two, x, 0, 1);
    assert(pre + x + post =~= s);
    lexlaws::lemma_subst_within(pre, x, post, 0, 1);
}

/// Double quotes read a text.
proof fn lemma_text_read(s: Seq<char>, pre: Seq<char>, t: Seq<char>, i: int, post: Seq<char>, w: Seq<char>)
    requires
        s == pre + t + post,
        0 <= i <= t.len(),
        unquoted(t),
    ensures
        tokenizer::double_from(s, pre.len() + i, w) == tokenizer::double_from(
            s,
            (pre.len() + t.len()) as int,
            w + quoting::encoded_from(t, i, quoting::literal_marks()),
        ),
    decreases t.len() - i,
{
    let marks = quoting::literal_marks();
    if i == t.len() {
        assert(w + quoting::encoded_from(t, i, marks) =~= w);
    } else {
        let e = quoting::encoded_char(t[i], marks);
        assert(s[pre.len() + i] == t[i]);
        assert(e == tokenizer::double_quoted(t[i]));
        lemma_text_read(s, pre, t, i + 1, post, w + e);
        assert(w + e + quoting::encoded_from(t, i + 1, marks) =~= w + quoting::encoded_from(
            t,
            i,
            marks,
        ));
    }
}

/// Double quotes read a parameter.
proof fn lemma_param_read(
    s: Seq<char>,
    pre: Seq<char>,
    inner: Seq<char>,
    post: Seq<char>,
    w: Seq<char>,
)
    requires
        s == pre + in_braces(inner) + post,
        unquoted(inner),
    ensures
        tokenizer::double_from(s, pre.len() as int, w) == tokenizer::double_from(
            s,
            (pre.len() + in_braces(inner).len()) as int,
            w + Part::Param(inner).word(),
        ),
{
    let j = pre.len() as int;
    let open = seq!['$', MARK];
    let e = quoting::encoded(inner, quoting::literal_marks());
    let front = pre + seq!['$', '{'];
    let back = seq!['}'] + post;
    assert(s =~= front + inner + back);
    assert(s[j] == '$' && s[j + 1] == '{');
    assert(s[j + 2 + inner.len()] == '}');
    lemma_text_read(s, front, inner, 0, back, w + open + seq!['{']);
    assert(tokenizer::double_from(s, j, w) == tokenizer::double_from(s, j + 1, w + open));
    assert(tokenizer::double_quoted('{') =~= seq!['{']);
    assert(tokenizer::double_quoted('}') =~= seq!['}']);
    assert(tokenizer::double_from(s, j + 1, w + open) == tokenizer::double_from(
        s,
        j + 2,
        w + open + seq!['{'],
    ));
    assert(w + open + seq!['{'] + e + seq!['}'] =~= w + Part::Param(inner).word());
}

/// Double quotes read a command.
proof fn lemma_command_read(
    s: Seq<char>,
    pre: Seq<char>,
    c: Seq<char>,
    post: Seq<char>,
    w: Seq<char>,
)
    requires
        s == pre + in_parens(c) + post,
        closed_command(c),
    ensures
        tokenizer::double_from(s, pre.len() as int, w) == tokenizer::double_from(
            s,
            (pre.len() + in_parens(c).len()) as int,
            w + Part::Command(c).word(),
        ),
{
    let j = pre.len() as int;
    let front = pre + seq!['$', '('];
    assert(s =~= front + (c + seq![')']) + post);
    assert(s[j] == '$' && s[j + 1] == '(');
    lemma_command_closed(s, front, c, post);
    if c.len() > 0 {
        assert(s[j + 2] == c[0]);
    } else {
        assert(s[j + 2] == ')');
    }
    let end = j + 2 + c.len();
    assert(w + seq!['$', MARK] + s.subrange(j + 1, end + 1) =~= w + Part::Command(c).word());
}

/// Double quotes read the parts one after the other.
proof fn lemma_read(s: Seq<char>, pre: Seq<char>, parts: Seq<Part>, w: Seq<char>)
    requires
        s == pre + written(parts) + seq!['"'],
        sound(parts),
    ensures
        tokenizer::double_from(s, pre.len() as int, w) == Some(
            (w + word(parts), s.len() as int),
        ),
    decreases parts.len(),
{
    let j = pre.len() as int;
    if parts.len() == 0 {
        assert(s[j] == '"');
        assert(w + word(parts) =~= w);
    } else {
        lemma_tail_sound(parts);
        let rest = parts.skip(1);
        let head = parts[0].written();
        let post = written(rest) + seq!['"'];
        assert(s =~= pre + head + post);
        assert(s =~= (pre + head) + written(rest) + seq!['"']);
        lemma_read(s, pre + head, rest, w + parts[0].word());
        assert(w + parts[0].word() + word(rest) =~= w + word(parts));
        match parts[0] {
            Part::Text(t) => {
                lemma_text_read(s, pre, t, 0, post, w);
            },
            Part::Param(inner) => {
                lemma_param_read(s, pre, inner, post, w);
            },
            Part::Command(c) => {
                lemma_command_read(s, pre, c, post, w);
            },
        }
    }
}

/// Marked text is copied by both passes.
proof fn lemma_text_copied(
    s: Seq<char>,
    pre: Seq<char>,
    t: Seq<char>,
    i: int,
    post: Seq<char>,
    outputs: Seq<Seq<char>>,
    n: int,
    sc: arith::Scope,
    status: int,
    acc: Seq<char>,
    found: Seq<Seq<char>>,
)
    requires
        s == pre + quoting::encoded_from(t, i, quoting::literal_marks()) + post,
        0 <= i <= t.len(),
    ensures
        ({
            let e = quoting::encoded_from(t, i, quoting::literal_marks());
            let j = pre.len() as int;
            &&& expand::expanded_from(s, j, acc, sc, status) == expand::expanded_from(
                s,
                j + e.len(),
                acc + e,
                sc,
                status,
            )
            &&& expand::substituted_from(s, j, outputs, n, acc) == expand::substituted_from(
                s,
                j + e.len(),
                outputs,
                n,
                acc + e,
            )
            &&& expand::commands_from(s, j, found) == expand::commands_from(
                s,
                j + e.len(),
                found,
            )
        }),
    decreases t.len() - i,
{
    let marks = quoting::literal_marks();
    let e = quoting::encoded_from(t, i, marks);
    let j = pre.len() as int;
    if i == t.len() {
        assert(acc + e =~= acc);
    } else {
        let c = quoting::encoded_char(t[i], marks);
        let rest = quoting::encoded_from(t, i + 1, marks);
        assert(s =~= (pre + c) + rest + post);
        assert(s.subrange(j, j + c.len()) =~= c);
        assert(s[j] == c[0]);
        lemma_text_copied(s, pre + c, t, i + 1, post, outputs, n, sc, status, acc + c, found);
        assert(acc + c + rest =~= acc + e);
        assert(arith::Scope { vars: sc.vars, positional: sc.positional } == sc);
    }
}

/// A quoted parameter is no command and is kept.
proof fn lemma_param_kept(
    s: Seq<char>,
    pre: Seq<char>,
    inner: Seq<char>,
    post: Seq<char>,
    outputs: Seq<Seq<char>>,
    n: int,
    acc: Seq<char>,
    found: Seq<Seq<char>>,
)
    requires
        s == pre + Part::Param(inner).word() + post,
    ensures
        ({
            let head = Part::Param(inner).word();
            let j = pre.len() as int;
            &&& expand::substituted_from(s, j, outputs, n, acc) == expand::substituted_from(
                s,
                j + head.len(),
                outputs,
                n,
                acc + head,
            )
            &&& expand::commands_from(s, j, found) == expand::commands_from(
                s,
                j + head.len(),
                found,
            )
        }),
{
    let j = pre.len() as int;
    let e = quoting::encoded(inner, quoting::literal_marks());
    let front = pre + seq!['$', MARK, '{'];
    let back = seq!['}'] + post;
    let sc = arbitrary::<arith::Scope>();
    assert(s =~= front + e + back);
    assert(s[j] == '$' && s[j + 1] == MARK && s[j + 2] == '{');
    assert(s.subrange(j, j + 1) =~= seq!['$']);
    assert(s.subrange(j + 1, j + 3) =~= seq![MARK, '{']);
    let open = acc + seq!['$'] + seq![MARK, '{'];
    lemma_text_copied(s, front, inner, 0, back, outputs, n, sc, 0, open, found);
    let k = j + 3 + e.len();
    assert(s[k] == '}');
    assert(s.subrange(k, k + 1) =~= seq!['}']);
    assert(expand::substituted_from(s, j, outputs, n, acc) == expand::substituted_from(
        s,
        j + 1,
        outputs,
        n,
        acc + seq!['$'],
    ));
    assert(expand::substituted_from(s, j + 1, outputs, n, acc + seq!['$'])
        == expand::substituted_from(s, j + 3, outputs, n, open));
    assert(expand::commands_from(s, j, found) == expand::commands_from(s, j + 1, found));
    assert(expand::commands_from(s, j + 1, found) == expand::commands_from(s, j + 3, found));
    assert(open + e + seq!['}'] =~= acc + Part::Param(inner).word());
}

/// A quoted command is run, and its output takes its place, protected.
proof fn lemma_command_run(
    s: Seq<char>,
    pre: Seq<char>,
    c: Seq<char>,
    post: Seq<char>,
    outputs: Seq<Seq<char>>,
    n: int,
    acc: Seq<char>,
    found: Seq<Seq<char>>,
)
    requires
        s == pre + Part::Command(c).word() + post,
        closed_command(c),
    ensures
        ({
            let head = Part::Command(c).word();
            let j = pre.len() as int;
            &&& expand::substituted_from(s, j, outputs, n, acc) == expand::substituted_from(
                s,
                j + head.len(),
                outputs,
                n + 1,
                acc + quoting::encoded(expand::output_of(outputs, n), quoting::literal_marks()),
            )
            &&& expand::commands_from(s, j, found) == expand::commands_from(
                s,
                j + head.len(),
                found.push(c),
            )
        }),
{
    let j = pre.len() as int;
    let front = pre + seq!['$', MARK, '('];
    assert(s =~= front + (c + seq![')']) + post);
    lemma_command_closed(s, front, c, post);
    assert(s[j] == '$' && s[j + 1] == MARK && s[j + 2] == '(');
    assert(s.subrange(j + 3, j + 3 + c.len()) =~= c);
    quoting::lemma_protected(expand::output_of(outputs, n));
}

/// The commands run in order, and their outputs take their places.
proof fn lemma_commands_run(
    s: Seq<char>,
    pre: Seq<char>,
    parts: Seq<Part>,
    outputs: Seq<Seq<char>>,
    n: int,
    acc: Seq<char>,
    found: Seq<Seq<char>>,
)
    requires
        s == pre + word(parts),
        sound(parts),
    ensures
        expand::substituted_from(s, pre.len() as int, outputs, n, acc) == acc + filled(
            parts,
            outputs,
            n,
        ),
        expand::commands_from(s, pre.len() as int, found) == found + commands(parts),
    decreases parts.len(),
{
    let j = pre.len() as int;
    let marks = quoting::literal_marks();
    if parts.len() == 0 {
        assert(acc + filled(parts, outputs, n) =~= acc);
        assert(found + commands(parts) =~= found);
    } else {
        lemma_tail_sound(parts);
        let rest = parts.skip(1);
        let head = parts[0].word();
        let post = word(rest);
        let sc = arbitrary::<arith::Scope>();
        assert(s =~= pre + head + post);
        assert(s =~= (pre + head) + post);
        match parts[0] {
            Part::Text(t) => {
                lemma_text_copied(s, pre, t, 0, post, outputs, n, sc, 0, acc, found);
                lemma_commands_run(s, pre + head, rest, outputs, n, acc + head, found);
                assert(acc + head + filled(rest, outputs, n) =~= acc + filled(parts, outputs, n));
            },
            Part::Param(inner) => {
                lemma_param_kept(s, pre, inner, post, outputs, n, acc, found);
                lemma_commands_run(s, pre + head, rest, outputs, n, acc + head, found);
                assert(acc + head + filled(rest, outputs, n) =~= acc + filled(parts, outputs, n));
            },
            Part::Command(c) => {
                let o = quoting::encoded(expand::output_of(outputs, n), marks);
                lemma_command_run(s, pre, c, post, outputs, n, acc, found);
                lemma_commands_run(
                    s,
                    pre + head,
                    rest,
                    outputs,
                    n + 1,
                    acc + o,
                    found.push(c),
                );
                assert(acc + o + filled(rest, outputs, n + 1) =~= acc + filled(
                    parts,
                    outputs,
                    n,
                ));
                assert(found.push(c) + commands(rest) =~= found + commands(parts));
            },
        }
    }
}

/// No brace comes from marking a text without any.
proof fn lemma_encoded_free(t: Seq<char>, i: int)
    requires
        quoting::free_of(t, '}'),
        0 <= i <= t.len(),
    ensures
        quoting::free_of(quoting::encoded_from(t, i, quoting::literal_marks()), '}'),
    decreases t.len() - i,
{
    if i < t.len() {
        let marks = quoting::literal_marks();
        lemma_encoded_free(t, i + 1);
        let c = quoting::encoded_char(t[i], marks);
        assert(quoting::free_of(c, '}'));
        lemma_free_joined(c, quoting::encoded_from(t, i + 1, marks), '}');
    }
}

proof fn lemma_found_brace(s: Seq<char>, i: int, k: int)
    requires
        0 <= i <= k < s.len(),
        s[k] == '}',
        forall|j: int| i <= j < k ==> #[trigger] s[j] != '}',
    ensures
        text::find_char(s, i, '}') == Some(k),
    decreases k - i,
{
    if i < k {
        lemma_found_brace(s, i + 1, k);
    }
}

/// A parameter gives way to its value, and is no command.
pub proof fn lemma_param_expanded(
    s: Seq<char>,
    pre: Seq<char>,
    inner: Seq<char>,
    post: Seq<char>,
    sc: arith::Scope,
    status: int,
    acc: Seq<char>,
)
    requires
        s == pre + in_braces(inner) + post,
        quoting::free_of(inner, '}'),
    ensures
        expand::expanded_from(s, pre.len() as int, acc, sc, status) == expand::expanded_from(
            s,
            (pre.len() + inner.len() + 3) as int,
            acc + expand::braced(inner, sc).0,
            arith::Scope { vars: expand::braced(inner, sc).1, positional: sc.positional },
            status,
        ),
{
    let j = pre.len() as int;
    let k = j + 2 + inner.len();
    assert(s[j] == '$' && s[j + 1] == '{' && s[k] == '}');
    assert forall|m: int| j + 2 <= m < k implies #[trigger] s[m] != '}' by {
        assert(s[m] == inner[m - j - 2]);
    }
    lemma_found_brace(s, j + 2, k);
    assert(s.subrange(j + 2, k) =~= inner);
}

/// Text without commands and marks is kept by the substitution of commands.
proof fn lemma_kept(
    s: Seq<char>,
    pre: Seq<char>,
    t: Seq<char>,
    i: int,
    post: Seq<char>,
    outputs: Seq<Seq<char>>,
    acc: Seq<char>,
)
    requires
        s == pre + t + post,
        0 <= i <= t.len(),
        quoting::markless(t),
        forall|k: int| 0 <= k < t.len() && #[trigger] t[k] == '$' ==> k + 1 < t.len() && t[k + 1]
            != '(',
    ensures
        expand::substituted_from(s, pre.len() + i, outputs, 0, acc) == expand::substituted_from(
            s,
            (pre.len() + t.len()) as int,
            outputs,
            0,
            acc + t.skip(i),
        ),
        expand::commands_from(s, pre.len() + i, Seq::empty()) == expand::commands_from(
            s,
            (pre.len() + t.len()) as int,
            Seq::empty(),
        ),
    decreases t.len() - i,
{
    if i == t.len() {
        assert(acc + t.skip(i) =~= acc);
    } else {
        let j = pre.len() + i;
        assert(s[j] == t[i]);
        if t[i] == '$' {
            assert(s[j + 1] == t[i + 1]);
        }
        assert(s.subrange(j, j + 1) =~= seq![t[i]]);
        lemma_kept(s, pre, t, i + 1, post, outputs, acc + seq![t[i]]);
        assert(acc + seq![t[i]] + t.skip(i + 1) =~= acc + t.skip(i));
    }
}

/// A quoted parameter gives way to its value, protected.
proof fn lemma_quoted_param(
    s: Seq<char>,
    pre: Seq<char>,
    inner: Seq<char>,
    post: Seq<char>,
    sc: arith::Scope,
    status: int,
    acc: Seq<char>,
)
    requires
        s == pre + Part::Param(inner).word() + post,
        quoting::free_of(inner, '}'),
    ensures
        expand::expanded_from(s, pre.len() as int, acc, sc, status) == expand::expanded_from(
            s,
            (pre.len() + Part::Param(inner).word().len()) as int,
            acc + quoting::encoded(expand::braced(inner, sc).0, quoting::literal_marks()),
            arith::Scope { vars: expand::braced(inner, sc).1, positional: sc.positional },
            status,
        ),
{
    let marks = quoting::literal_marks();
    let e = quoting::encoded(inner, marks);
    let none = Seq::<char>::empty();
    let j = pre.len() as int;
    let k = j + 3 + e.len();
    assert(s[j] == '$' && s[j + 1] == MARK && s[j + 2] == '{' && s[k] == '}');
    lemma_encoded_free(inner, 0);
    assert forall|m: int| j + 3 <= m < k implies #[trigger] s[m] != '}' by {
        assert(s[m] == e[m - j - 3]);
    }
    lemma_found_brace(s, j + 3, k);
    assert(s.subrange(j + 3, k) =~= e);
    assert(e =~= none + quoting::encoded_from(inner, 0, marks));
    quoting::lemma_strip(e, none, inner, 0, marks, none);
    assert(none + inner.skip(0) =~= inner);
    quoting::lemma_protected(expand::braced(inner, sc).0);
}

/// The parameters are expanded one after the other.
proof fn lemma_expanded(
    s: Seq<char>,
    pre: Seq<char>,
    parts: Seq<Part>,
    outputs: Seq<Seq<char>>,
    n: int,
    sc: arith::Scope,
    status: int,
    acc: Seq<char>,
)
    requires
        s == pre + filled(parts, outputs, n),
        sound(parts),
    ensures
        expand::expanded_from(s, pre.len() as int, acc, sc, status) == (
            acc + quoting::encoded(value(parts, outputs, n, sc).0, quoting::literal_marks()),
            value(parts, outputs, n, sc).1,
        ),
    decreases parts.len(),
{
    let marks = quoting::literal_marks();
    if parts.len() == 0 {
        let none = quoting::encoded(Seq::<char>::empty(), marks);
        assert(acc + none =~= acc);
    } else {
        lemma_tail_sound(parts);
        let rest = parts.skip(1);
        match parts[0] {
            Part::Text(t) => {
                let e = quoting::encoded(t, marks);
                let v = value(rest, outputs, n, sc).0;
                let post = filled(rest, outputs, n);
                assert(s =~= pre + e + post);
                assert(s =~= (pre + e) + post);
                lemma_text_copied(s, pre, t, 0, post, outputs, n, sc, status, acc, Seq::empty());
                lemma_expanded(s, pre + e, rest, outputs, n, sc, status, acc + e);
                lemma_encoded_joined(t, v, 0, marks);
                assert(acc + e + quoting::encoded(v, marks) =~= acc + quoting::encoded(
                    t + v,
                    marks,
                ));
            },
            Part::Param(inner) => {
                let (b, after) = expand::braced(inner, sc);
                let next = arith::Scope { vars: after, positional: sc.positional };
                let v = value(rest, outputs, n, next).0;
                let e = quoting::encoded(b, marks);
                let head = parts[0].word();
                let post = filled(rest, outputs, n);
                assert(s =~= pre + head + post);
                assert(s =~= (pre + head) + post);
                lemma_quoted_param(s, pre, inner, post, sc, status, acc);
                lemma_expanded(s, pre + head, rest, outputs, n, next, status, acc + e);
                lemma_encoded_joined(b, v, 0, marks);
                assert(acc + e + quoting::encoded(v, marks) =~= acc + quoting::encoded(
                    b + v,
                    marks,
                ));
            },
            Part::Command(_) => {
                let o = expand::output_of(outputs, n);
                let e = quoting::encoded(o, marks);
                let v = value(rest, outputs, n + 1, sc).0;
                let post = filled(rest, outputs, n + 1);
                assert(s =~= pre + e + post);
                assert(s =~= (pre + e) + post);
                lemma_text_copied(s, pre, o, 0, post, outputs, n, sc, status, acc, Seq::empty());
                lemma_expanded(s, pre + e, rest, outputs, n + 1, sc, status, acc + e);
                lemma_encoded_joined(o, v, 0, marks);
                assert(acc + e + quoting::encoded(v, marks) =~= acc + quoting::encoded(
                    o + v,
                    marks,
                ));
            },
        }
    }
}

/// Double quotes expand parameters and commands and protect everything else:
/// the parts between them are one token, its commands are those that were
/// written, and the token becomes one word, made of the texts as they are, the
/// values of the parameters and the outputs of the commands, whatever these
/// hold.
pub proof fn law_double_quoted_parts(
    parts: Seq<Part>,
    outputs: Seq<Seq<char>>,
    sc: arith::Scope,
    status: int,
    command: bool,
    paths: Seq<Seq<char>>,
)
    requires
        sound(parts),
        value(parts, outputs, 0, sc).0.len() > 0,
    ensures
        tokenizer::tokens_of(quoting::quoted('"', written(parts))) == Ok::<
            Seq<tokenizer::TokenModel>,
            Seq<char>,
        >(seq![tokenizer::TokenModel::Word(word(parts))]),
        expand::commands_of(word(parts)) == commands(parts),
        expand::resolved(word(parts), outputs, sc, status).1 == value(parts, outputs, 0, sc).1,
        expand::plan_words(
            expand::plan_of(expand::resolved(word(parts), outputs, sc, status).0, command),
            paths,
        ) == seq![value(parts, outputs, 0, sc).0],
{
    let marks = quoting::literal_marks();
    let w = word(parts);
    let v = value(parts, outputs, 0, sc).0;
    let none = Seq::<char>::empty();
    let nothing = Seq::<Seq<char>>::empty();
    let s = quoting::quoted('"', written(parts));
    lemma_read(s, seq!['"'], parts, none);
    assert(none + w =~= w);
    assert(s[0] == '"');
    lemma_one_word(s, w);
    lemma_commands_run(w, none, parts, outputs, 0, none, nothing);
    assert(nothing + commands(parts) =~= commands(parts));
    let m = filled(parts, outputs, 0);
    assert(none + m =~= m);
    lemma_expanded(m, none, parts, outputs, 0, sc, status, none);
    let e = quoting::encoded(v, marks);
    assert(none + e =~= e);
    quoting::lemma_next(e, none, v, 0, marks);
    quoting::lemma_marked_plan(v, marks, command, paths);
}

// ---------------------------------------------------------------------------
// Unquoted parameters.
// ---------------------------------------------------------------------------

/// A name stands in `s` behind `front` characters, and nothing behind it.
proof fn lemma_name_run(s: Seq<char>, front: int, name: Seq<char>, k: int)
    requires
        0 <= front <= k <= s.len(),
        s.len() == front + name.len(),
        s.skip(front) == name,
        forall|j: int| 0 <= j < name.len() ==> arith::name_char(#[trigger] name[j]),
    ensures
        arith::name_end(s, k) == s.len(),
    decreases s.len() - k,
{
    if k < s.len() {
        assert(s[k] == s.skip(front)[k - front]);
        assert(arith::name_char(name[k - front]));
        lemma_name_run(s, front, name, k + 1);
    }
}

pub proof fn lemma_name_chars(name: Seq<char>)
    requires
        expand::valid_name(name),
    ensures
        forall|j: int|
            0 <= j < name.len() ==> arith::name_char(#[trigger] name[j]) && !text::whitespace(
                name[j],
            ) && name[j] != MARK && name[j] != '$',
        arith::name_start(name[0]),
        name[0] != '?' && name[0] != '@' && name[0] != '#' && name[0] != '{' && name[0] != '('
            && !text::ascii_digit(name[0]),
{
    assert forall|j: int| 0 <= j < name.len() implies arith::name_char(#[trigger] name[j])
        && !text::whitespace(name[j]) && name[j] != MARK && name[j] != '$' by {
        assert(expand::initial_char(name[j]) || text::ascii_digit(name[j]));
    }
}

/// `$NAME` is the value of the variable.
pub proof fn law_variables(name: Seq<char>, sc: arith::Scope, status: int)
    requires
        expand::valid_name(name),
    ensures
        expand::expanded(seq!['$'] + name, sc, status) == (sc.vars.value(name), sc.vars),
{
    let s = seq!['$'] + name;
    let none = Seq::<char>::empty();
    let v = sc.vars.value(name);
    assert(s[0] == '$' && s[1] == name[0]);
    lemma_name_chars(name);
    assert(s.skip(1) =~= name);
    lemma_name_run(s, 1, name, 1);
    assert(s.subrange(1, s.len() as int) =~= name);
    let e = expand::expansion(s, 0, sc, status);
    assert(e.text == v && e.next == s.len() && e.vars == sc.vars);
    assert(none + v =~= v);
    let after = arith::Scope { vars: sc.vars, positional: sc.positional };
    assert(expand::expanded_from(s, s.len() as int, v, after, status) == (v, sc.vars));
}

/// `${NAME}` is the value of the variable, and `${#NAME}` the number of its
/// characters.
pub proof fn law_braced_variables(name: Seq<char>, sc: arith::Scope, status: int)
    requires
        expand::valid_name(name),
    ensures
        expand::expanded(in_braces(name), sc, status) == (sc.vars.value(name), sc.vars),
        expand::expanded(in_braces(seq!['#'] + name), sc, status) == (
            text::decimal(sc.vars.value(name).len()),
            sc.vars,
        ),
{
    let none = Seq::<char>::empty();
    let v = sc.vars.value(name);
    assert(none + v =~= v);
    wordlaws::lemma_name(name);
    lemma_name_chars(name);
    assert forall|k: int| 0 <= k < name.len() implies #[trigger] name[k] != '}' by {
        assert(arith::name_char(name[k]));
    }
    assert(name != "@"@) by {
        reveal_strlit("@");
    }
    wordlaws::lemma_no_operator(name, 0);
    let b = in_braces(name);
    assert(b =~= none + in_braces(name) + none);
    lemma_param_expanded(b, none, name, none, sc, status, none);
    let counted = seq!['#'] + name;
    assert(counted.skip(1) =~= name);
    lemma_free_joined(seq!['#'], name, '}');
    let d = in_braces(counted);
    assert(d =~= none + in_braces(counted) + none);
    lemma_param_expanded(d, none, counted, none, sc, status, none);
    let n = text::decimal(v.len());
    assert(none + n =~= n);
}

/// `$NAME` within its token, from between double quotes.
pub open spec fn quoted_name(name: Seq<char>) -> Seq<char> {
    seq!['$', MARK] + name
}

proof fn lemma_name_read(s: Seq<char>, name: Seq<char>, i: int, w: Seq<char>)
    requires
        s == quoting::quoted('"', seq!['$'] + name),
        forall|j: int| 0 <= j < name.len() ==> arith::name_char(#[trigger] name[j])
            && !text::whitespace(name[j]),
        0 <= i <= name.len(),
    ensures
        tokenizer::double_from(s, i + 2, w) == Some(
            (w + name.skip(i), s.len() as int),
        ),
    decreases name.len() - i,
{
    if i == name.len() {
        assert(s[i + 2] == '"');
        assert(w + name.skip(i) =~= w);
    } else {
        assert(s[i + 2] == name[i]);
        assert(arith::name_char(name[i]));
        assert(tokenizer::double_quoted(name[i]) =~= seq![name[i]]);
        lemma_name_read(s, name, i + 1, w + seq![name[i]]);
        assert(w + seq![name[i]] + name.skip(i + 1) =~= w + name.skip(i));
    }
}

/// `"$NAME"` is one word, the value of the variable, whatever the value holds.
pub proof fn law_quoted_variable(
    name: Seq<char>,
    outputs: Seq<Seq<char>>,
    sc: arith::Scope,
    status: int,
    command: bool,
    paths: Seq<Seq<char>>,
)
    requires
        expand::valid_name(name),
        sc.vars.value(name).len() > 0,
    ensures
        tokenizer::tokens_of(quoting::quoted('"', seq!['$'] + name)) == Ok::<
            Seq<tokenizer::TokenModel>,
            Seq<char>,
        >(seq![tokenizer::TokenModel::Word(quoted_name(name))]),
        expand::commands_of(quoted_name(name)) == Seq::<Seq<char>>::empty(),
        expand::resolved(quoted_name(name), outputs, sc, status).1 == sc.vars,
        expand::plan_words(
            expand::plan_of(
                expand::resolved(quoted_name(name), outputs, sc, status).0,
                command,
            ),
            paths,
        ) == seq![sc.vars.value(name)],
{
    let s = quoting::quoted('"', seq!['$'] + name);
    let w = quoted_name(name);
    let none = Seq::<char>::empty();
    let v = sc.vars.value(name);
    let marks = quoting::literal_marks();
    let e = quoting::encoded(v, marks);
    lemma_name_chars(name);
    assert(s[0] == '"' && s[1] == '$' && s[2] == name[0]);
    assert(tokenizer::double_from(s, 1, none) == tokenizer::double_from(
        s,
        2,
        none + seq!['$', MARK],
    ));
    lemma_name_read(s, name, 0, none + seq!['$', MARK]);
    assert(none + seq!['$', MARK] + name.skip(0) =~= w);
    lemma_one_word(s, w);
    lemma_name_kept(name, outputs);
    assert(w[0] == '$' && w[1] == MARK && w[2] == name[0]);
    assert(w.skip(2) =~= name);
    lemma_name_run(w, 2, name, 2);
    assert(w.subrange(2, w.len() as int) =~= name);
    quoting::lemma_protected(v);
    let x = expand::expansion(w, 0, sc, status);
    assert(x.text == e && x.next == w.len() && x.vars == sc.vars);
    assert(none + e =~= e);
    let after = arith::Scope { vars: sc.vars, positional: sc.positional };
    assert(expand::expanded_from(w, w.len() as int, e, after, status) == (e, sc.vars));
    quoting::lemma_next(e, none, v, 0, marks);
    quoting::lemma_marked_plan(v, marks, command, paths);
}

/// A text that is one double-quoted piece is one token.
proof fn lemma_one_word(s: Seq<char>, w: Seq<char>)
    requires
        s.len() > 0,
        s[0] == '"',
        tokenizer::double_from(s, 1, Seq::empty()) == Some((w, s.len() as int)),
    ensures
        tokenizer::tokens_of(s) == Ok::<Seq<tokenizer::TokenModel>, Seq<char>>(
            seq![tokenizer::TokenModel::Word(w)],
        ),
{
    reveal_with_fuel(tokenizer::word_from, 2);
    reveal_with_fuel(tokenizer::tokens_from, 2);
    assert(Seq::empty().push(tokenizer::TokenModel::Word(w)) =~= seq![
        tokenizer::TokenModel::Word(w),
    ]);
}

proof fn lemma_name_kept(name: Seq<char>, outputs: Seq<Seq<char>>)
    requires
        expand::valid_name(name),
    ensures
        expand::substituted(quoted_name(name), outputs) == quoted_name(name),
        expand::commands_of(quoted_name(name)) == Seq::<Seq<char>>::empty(),
{
    let w = quoted_name(name);
    let none = Seq::<char>::empty();
    let nothing = Seq::<Seq<char>>::empty();
    lemma_name_chars(name);
    assert(w[0] == '$' && w[1] == MARK && w[2] == name[0]);
    assert(w.subrange(0, 1) =~= seq!['$']);
    assert(w.subrange(1, 3) =~= seq![MARK, name[0]]);
    let front = seq!['$'] + seq![MARK, name[0]];
    let tail = name.skip(1);
    assert(none + seq!['$'] =~= seq!['$']);
    assert(expand::substituted(w, outputs) == expand::substituted_from(
        w,
        1,
        outputs,
        0,
        seq!['$'],
    ));
    assert(expand::substituted_from(w, 1, outputs, 0, seq!['$']) == expand::substituted_from(
        w,
        3,
        outputs,
        0,
        front,
    ));
    assert(expand::commands_of(w) == expand::commands_from(w, 1, nothing));
    assert(expand::commands_from(w, 1, nothing) == expand::commands_from(w, 3, nothing));
    assert forall|k: int| 0 <= k < tail.len() implies #[trigger] tail[k] != MARK && tail[k]
        != '$' by {
        assert(arith::name_char(name[k + 1]));
    }
    assert(w =~= front + tail + none);
    lemma_kept(w, front, tail, 0, none, outputs, front);
    assert(front + tail.skip(0) =~= w);
}

/// No pattern character occurs in a text.
pub open spec fn globless(t: Seq<char>) -> bool {
    forall|k: int| 0 <= k < t.len() ==> !expand::glob_char(#[trigger] t[k])
}

proof fn lemma_globless(t: Seq<char>, i: int)
    requires
        globless(t),
        quoting::markless(t),
        0 <= i <= t.len(),
    ensures
        !expand::globs_from(t, i),
    decreases t.len() - i,
{
    if i < t.len() {
        lemma_globless(t, i + 1);
    }
}

/// The value of an unquoted parameter is split into its whitespace-separated
/// words. It must hold neither pattern characters nor marks, nor begin with
/// `~`.
pub proof fn law_unquoted_parameters(
    inner: Seq<char>,
    outputs: Seq<Seq<char>>,
    sc: arith::Scope,
    status: int,
    paths: Seq<Seq<char>>,
)
    requires
        quoting::free_of(inner, '}'),
        quoting::free_of(inner, '$'),
        quoting::markless(inner),
        quoting::markless(expand::braced(inner, sc).0),
        globless(expand::braced(inner, sc).0),
        expand::braced(inner, sc).0.len() > 0 ==> expand::braced(inner, sc).0[0] != '~',
    ensures
        expand::commands_of(in_braces(inner)) == Seq::<Seq<char>>::empty(),
        expand::resolved(in_braces(inner), outputs, sc, status) == expand::braced(inner, sc),
        expand::plan_words(expand::plan_of(expand::braced(inner, sc).0, true), paths)
            == text::words(expand::braced(inner, sc).0),
{
    let w = in_braces(inner);
    let v = expand::braced(inner, sc).0;
    let none = Seq::<char>::empty();
    assert forall|k: int| 0 <= k < w.len() implies #[trigger] w[k] != MARK by {
        if 2 <= k < w.len() - 1 {
            assert(w[k] == inner[k - 2]);
        }
    }
    assert forall|k: int| 0 <= k < w.len() && #[trigger] w[k] == '$' implies k + 1 < w.len()
        && w[k + 1] != '(' by {
        if 2 <= k < w.len() - 1 {
            assert(w[k] == inner[k - 2]);
        }
    }
    assert(w =~= none + w + none);
    lemma_kept(w, none, w, 0, none, outputs, none);
    assert(none + w.skip(0) =~= w);
    lemma_param_expanded(w, none, inner, none, sc, status, none);
    assert(none + v =~= v);
    lemma_globless(v, 0);
    wordlaws::law_fields_are_words(v);
}

// ---------------------------------------------------------------------------
// Unquoted commands.
// ---------------------------------------------------------------------------

/// Words with their special characters marked, as in the output of a command.
pub open spec fn all_encoded(ws: Seq<Seq<char>>) -> Seq<Seq<char>> {
    ws.map_values(|w: Seq<char>| quoting::encoded(w, quoting::output_marks()))
}

proof fn lemma_encoded_pushed(t: Seq<char>, c: char)
    ensures
        quoting::encoded(t.push(c), quoting::output_marks()) == quoting::encoded(
            t,
            quoting::output_marks(),
        ) + quoting::encoded_char(c, quoting::output_marks()),
{
    let marks = quoting::output_marks();
    assert(t.push(c) =~= t + seq![c]);
    lemma_encoded_joined(t, seq![c], 0, marks);
    reveal_with_fuel(quoting::encoded_from, 2);
    assert(quoting::encoded(seq![c], marks) =~= quoting::encoded_char(c, marks));
}

proof fn lemma_encoded_empty(t: Seq<char>)
    ensures
        quoting::encoded(t, quoting::output_marks()).len() == 0 <==> t.len() == 0,
{
}

/// The runs of marked output are its words, with their marks.
proof fn lemma_output_runs(
    s: Seq<char>,
    pre: Seq<char>,
    t: Seq<char>,
    i: int,
    cur: Seq<char>,
    acc: Seq<Seq<char>>,
)
    requires
        s == pre + quoting::encoded_from(t, i, quoting::output_marks()),
        0 <= i <= t.len(),
        quoting::markless(t),
    ensures
        expand::runs_from(
            s,
            pre.len() as int,
            quoting::encoded(cur, quoting::output_marks()),
            all_encoded(acc),
        ) == all_encoded(acc + text::words_from(t, i, cur)),
    decreases t.len() - i,
{
    let marks = quoting::output_marks();
    let e = quoting::encoded(cur, marks);
    let closed = acc + text::nonempty(cur);
    lemma_encoded_empty(cur);
    assert(expand::closed_run(e, all_encoded(acc)) =~= all_encoded(closed));
    if i < t.len() {
        quoting::lemma_next(s, pre, t, i, marks);
        let next = pre + quoting::encoded_char(t[i], marks);
        if text::whitespace(t[i]) {
            assert(!marks(t[i]));
            assert(quoting::encoded(Seq::<char>::empty(), marks) =~= Seq::empty());
            lemma_output_runs(s, next, t, i + 1, Seq::empty(), closed);
            assert(closed + text::words_from(t, i + 1, Seq::empty()) =~= acc + text::words_from(
                t,
                i,
                cur,
            ));
        } else {
            lemma_encoded_pushed(cur, t[i]);
            assert(e + quoting::encoded_char(t[i], marks) =~= if marks(t[i]) {
                e.push(MARK).push(t[i])
            } else {
                e.push(t[i])
            });
            lemma_output_runs(s, next, t, i + 1, cur.push(t[i]), acc);
        }
    }
}

proof fn lemma_output_fields(t: Seq<char>)
    requires
        quoting::markless(t),
    ensures
        expand::fields(expand::marked_output(t)) == text::words(t),
{
    let marks = quoting::output_marks();
    let none = Seq::<char>::empty();
    let s = expand::marked_output(t);
    quoting::lemma_output_encoding(t, t.len() as int);
    assert(t.take(t.len() as int) =~= t);
    assert(s =~= none + quoting::encoded_from(t, 0, marks));
    let nothing = Seq::<Seq<char>>::empty();
    assert(all_encoded(nothing) =~= nothing);
    assert(quoting::encoded(none, marks) =~= none);
    lemma_output_runs(s, none, t, 0, none, nothing);
    assert(nothing + text::words(t) =~= text::words(t));
    wordlaws::lemma_runs_are_words(t, 0, none, nothing);
    let ws = text::words(t);
    assert forall|k: int| 0 <= k < ws.len() implies #[trigger] expand::fields(s)[k] == ws[k] by {
        let e = quoting::encoded(ws[k], marks);
        assert(expand::runs(s)[k] == e);
        assert(none + quoting::encoded_from(ws[k], 0, marks) =~= e);
        quoting::lemma_strip(e, none, ws[k], 0, marks, none);
        assert(none + ws[k].skip(0) =~= ws[k]);
    }
    assert(expand::fields(s) =~= ws);
}

/// An unquoted `$(...)` runs the command between its parentheses, and the
/// output of the command is split into its whitespace-separated words. Nothing
/// in the output is expanded or matched against path names.
pub proof fn law_unquoted_commands(
    c: Seq<char>,
    t: Seq<char>,
    sc: arith::Scope,
    status: int,
    paths: Seq<Seq<char>>,
)
    requires
        closed_command(c),
        quoting::markless(t),
    ensures
        expand::commands_of(in_parens(c)) == seq![c],
        expand::resolved(in_parens(c), seq![t], sc, status) == (expand::marked_output(t), sc.vars),
        expand::plan_words(expand::plan_of(expand::marked_output(t), true), paths) == text::words(
            t,
        ),
{
    let w = in_parens(c);
    let none = Seq::<char>::empty();
    assert(w[0] == '$' && w[1] == '(');
    if c.len() > 0 {
        assert(w[2] == c[0]);
    } else {
        assert(w[2] == ')');
    }
    assert(w.subrange(2, (c.len() + 2) as int) =~= c);
    reveal_with_fuel(expand::commands_from, 2);
    reveal_with_fuel(expand::substituted_from, 2);
    assert(Seq::<Seq<char>>::empty().push(c) =~= seq![c]);
    assert(none + expand::marked_output(t) =~= expand::marked_output(t));
    quoting::law_output_is_literal(t, Seq::empty(), sc, status);
    lemma_output_fields(t);
}

} // verus!
