//! Matching of `case` patterns.

use crate::expand;
use crate::text::same;
use vstd::prelude::*;

verus! {

/// A text as a pattern that is made of literal characters alone.
pub open spec fn escaped(t: Seq<char>) -> Seq<char>
    decreases t.len(),
{
    if t.len() == 0 {
        Seq::empty()
    } else {
        escaped(t.drop_last()) + expand::pattern_literal(t.last())
    }
}

/// A pattern with `wild` between two literal texts.
pub open spec fn between(a: Seq<char>, wild: Seq<char>, b: Seq<char>) -> Seq<char> {
    escaped(a) + wild + escaped(b)
}

/// `a`, then anything, then `b`.
pub open spec fn any_between(a: Seq<char>, b: Seq<char>) -> Seq<char> {
    between(a, seq!['*'], b)
}

/// `a`, then one character, then `b`.
pub open spec fn one_between(a: Seq<char>, b: Seq<char>) -> Seq<char> {
    between(a, seq!['?'], b)
}

/// `a`, then one character from `x` to `y`, then `b`.
pub open spec fn range_between(a: Seq<char>, x: char, y: char, b: Seq<char>) -> Seq<char> {
    between(a, seq!['[', x, '-', y, ']'], b)
}

/// A text that begins with `a` and ends with `b`, one behind the other.
pub open spec fn spans(v: Seq<char>, a: Seq<char>, b: Seq<char>) -> bool {
    &&& v.len() >= a.len() + b.len()
    &&& v.take(a.len() as int) == a
    &&& v.skip(v.len() - b.len()) == b
}

/// What `glob::Pattern::new` and `Pattern::matches` make of a pattern and a
/// value: `None` for a malformed pattern, else whether the pattern matches the
/// whole value.
pub uninterp spec fn glob_match(pattern: Seq<char>, value: Seq<char>) -> Option<bool>;

/// `glob::Pattern::new`, then `Pattern::matches`. Claimed: the answer depends
/// on the two texts alone; a pattern in which `* ? [` stand only as `[*]`,
/// `[?]` and `[[]` is well formed and matches the text that it spells, and
/// nothing else; between two such texts a `*` matches any characters, a `?`
/// exactly one, and `[x-y]` one from `x` to `y`. What patterns with more than
/// one wildcard match is left to the name.
#[verifier::external_body]
fn glob_matches(pattern: &str, value: &str) -> (r: Option<bool>)
    ensures
        r == glob_match(pattern@, value@),
        forall|t: Seq<char>| pattern@ == #[trigger] escaped(t) ==> r == Some(value@ == t),
        forall|a: Seq<char>, b: Seq<char>|
            pattern@ == #[trigger] any_between(a, b) ==> r == Some(spans(value@, a, b)),
        forall|a: Seq<char>, b: Seq<char>|
            pattern@ == #[trigger] one_between(a, b) ==> r == Some(
                spans(value@, a, b) && value@.len() == a.len() + b.len() + 1,
            ),
        forall|a: Seq<char>, x: char, y: char, b: Seq<char>|
            pattern@ == #[trigger] range_between(a, x, y, b) && x != '!' && y != ']' ==> r == Some(
                spans(value@, a, b) && value@.len() == a.len() + b.len() + 1 && x
                    <= value@[a.len() as int] <= y,
            ),
{
    match glob::Pattern::new(pattern) {
        Ok(p) => Some(p.matches(value)),
        Err(_) => None,
    }
}

/// A `case` pattern matches a value.
pub open spec fn matching(pattern: Seq<char>, value: Seq<char>) -> bool {
    pattern == "*"@ || glob_match(pattern, value) == Some(true)
}

proof fn lemma_escaped_is_not_star(t: Seq<char>)
    ensures
        escaped(t) != "*"@,
{
    reveal_strlit("*");
    assert("*"@.len() == 1 && "*"@.last() == '*');
    if t.len() > 0 {
        let last = expand::pattern_literal(t.last());
        assert(last.last() != '*');
        assert(escaped(t).last() == last.last());
    }
}

proof fn lemma_escaped_len(t: Seq<char>)
    ensures
        escaped(t).len() >= t.len(),
    decreases t.len(),
{
    if t.len() > 0 {
        lemma_escaped_len(t.drop_last());
    }
}

/// Of the patterns with one wildcard, only a `*` alone is `*`.
proof fn lemma_star(a: Seq<char>, wild: Seq<char>, b: Seq<char>)
    requires
        wild.len() > 0,
        between(a, wild, b) == "*"@,
    ensures
        a.len() == 0 && b.len() == 0 && wild == seq!['*'],
{
    reveal_strlit("*");
    lemma_escaped_len(a);
    lemma_escaped_len(b);
    let p = between(a, wild, b);
    assert(p.len() == escaped(a).len() + wild.len() + escaped(b).len());
    assert(escaped(a) =~= Seq::empty());
    assert(escaped(b) =~= Seq::empty());
    assert(p =~= wild);
    assert(wild =~= seq!['*']);
}

/// Matches a `case` pattern (`*`, `?`, `[...]`, as in a glob) against a value.
/// A malformed pattern matches nothing, a literal text matches itself, and
/// between literal texts a `*` matches anything, a `?` one character, and a
/// range one of its characters.
pub fn pattern_matches(pattern: &str, value: &str) -> (r: bool)
    ensures
        r == matching(pattern@, value@),
        forall|t: Seq<char>| pattern@ == #[trigger] escaped(t) ==> r == (value@ == t),
        forall|a: Seq<char>, b: Seq<char>|
            pattern@ == #[trigger] any_between(a, b) ==> r == spans(value@, a, b),
        forall|a: Seq<char>, b: Seq<char>|
            pattern@ == #[trigger] one_between(a, b) ==> r == (spans(value@, a, b) && value@.len()
                == a.len() + b.len() + 1),
        forall|a: Seq<char>, x: char, y: char, b: Seq<char>|
            pattern@ == #[trigger] range_between(a, x, y, b) && x != '!' && y != ']' ==> r == (
            spans(value@, a, b) && value@.len() == a.len() + b.len() + 1 && x
                <= value@[a.len() as int] <= y),
{
    if same(pattern, "*") {
        proof {
            lemma_only_star(pattern@, value@);
        }
        return true;
    }
    match glob_matches(pattern, value) {
        Some(m) => m,
        None => false,
    }
}

/// What the pattern `*` is, and what it is not.
proof fn lemma_only_star(pattern: Seq<char>, value: Seq<char>)
    requires
        pattern == "*"@,
    ensures
        forall|t: Seq<char>| pattern != #[trigger] escaped(t),
        forall|a: Seq<char>, b: Seq<char>|
            pattern == #[trigger] any_between(a, b) ==> spans(value, a, b),
        forall|a: Seq<char>, b: Seq<char>| pattern != #[trigger] one_between(a, b),
        forall|a: Seq<char>, x: char, y: char, b: Seq<char>|
            pattern != #[trigger] range_between(a, x, y, b),
{
    assert forall|t: Seq<char>| pattern != #[trigger] escaped(t) by {
        lemma_escaped_is_not_star(t);
    }
    assert forall|a: Seq<char>, b: Seq<char>|
        pattern == #[trigger] any_between(a, b) implies spans(value, a, b) by {
        lemma_star(a, seq!['*'], b);
        assert(value.take(0) =~= a);
        assert(value.skip(value.len() as int) =~= b);
    }
    assert forall|a: Seq<char>, b: Seq<char>| pattern != #[trigger] one_between(a, b) by {
        if pattern == one_between(a, b) {
            lemma_star(a, seq!['?'], b);
            assert(seq!['?'][0] != seq!['*'][0]);
        }
    }
    assert forall|a: Seq<char>, x: char, y: char, b: Seq<char>|
        pattern != #[trigger] range_between(a, x, y, b) by {
        let wild = seq!['[', x, '-', y, ']'];
        if pattern == range_between(a, x, y, b) {
            lemma_star(a, wild, b);
            assert(wild.len() == 5 && seq!['*'].len() == 1);
        }
    }
}

} // verus!
