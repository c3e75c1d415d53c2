//! Laws of texts: splitting, trimming, joining, words and numbers.

use crate::arithlaws;
use crate::builtins;
use crate::text;
use crate::wordlaws;
use vstd::prelude::*;

verus! {

/// A text without the character.
pub open spec fn lacks(s: Seq<char>, c: char) -> bool {
    forall|k: int| 0 <= k < s.len() ==> #[trigger] s[k] != c
}

/// A text of whitespace.
pub open spec fn blank(s: Seq<char>) -> bool {
    forall|k: int| 0 <= k < s.len() ==> text::whitespace(#[trigger] s[k])
}

proof fn lemma_found(a: Seq<char>, c: char, b: Seq<char>, i: int)
    requires
        lacks(a, c),
        0 <= i <= a.len(),
    ensures
        text::find_char(a + seq![c] + b, i, c) == Some(a.len() as int),
    decreases a.len() - i,
{
    let s = a + seq![c] + b;
    if i < a.len() {
        assert(s[i] == a[i]);
        lemma_found(a, c, b, i + 1);
    } else {
        assert(s[i] == c);
    }
}

proof fn lemma_not_found(s: Seq<char>, c: char, i: int)
    requires
        lacks(s, c),
        0 <= i <= s.len(),
    ensures
        text::find_char(s, i, c) is None,
    decreases s.len() - i,
{
    if i < s.len() {
        lemma_not_found(s, c, i + 1);
    }
}

/// A text splits at the first of the characters: what stands before it has
/// none of them, and what stands behind it may have more. A text without the
/// character does not split.
pub proof fn law_split(a: Seq<char>, c: char, b: Seq<char>)
    requires
        lacks(a, c),
    ensures
        text::split_at_char(a + seq![c] + b, c) == Some((a, b)),
        text::split_at_char(a, c) is None,
{
    let s = a + seq![c] + b;
    lemma_found(a, c, b, 0);
    lemma_not_found(a, c, 0);
    assert(s.take(a.len() as int) =~= a);
    assert(s.skip((a.len() + 1) as int) =~= b);
}

proof fn lemma_trim_front(pre: Seq<char>, t: Seq<char>)
    requires
        blank(pre),
        t.len() > 0 ==> !text::whitespace(t[0]),
    ensures
        text::trim_start(pre + t) == t,
    decreases pre.len(),
{
    if pre.len() == 0 {
        assert(pre + t =~= t);
    } else {
        assert((pre + t)[0] == pre[0]);
        assert((pre + t).skip(1) =~= pre.skip(1) + t);
        lemma_trim_front(pre.skip(1), t);
    }
}

proof fn lemma_trim_back(t: Seq<char>, post: Seq<char>)
    requires
        blank(post),
        t.len() > 0 ==> !text::whitespace(t.last()),
    ensures
        text::trim_end(t + post) == t,
    decreases post.len(),
{
    if post.len() == 0 {
        assert(t + post =~= t);
    } else {
        assert((t + post).last() == post.last());
        assert((t + post).drop_last() =~= t + post.drop_last());
        lemma_trim_back(t, post.drop_last());
    }
}

/// Trimming takes the whitespace off both ends and nothing else.
pub proof fn law_trimmed(pre: Seq<char>, t: Seq<char>, post: Seq<char>)
    requires
        blank(pre),
        blank(post),
        t.len() > 0,
        !text::whitespace(t[0]),
        !text::whitespace(t.last()),
    ensures
        text::trimmed(pre + t + post) == t,
        text::trimmed(pre) == Seq::<char>::empty(),
{
    assert(pre + t + post =~= pre + (t + post));
    assert((t + post)[0] == t[0]);
    lemma_trim_front(pre, t + post);
    lemma_trim_back(t, post);
    assert(pre =~= pre + Seq::empty());
    lemma_trim_front(pre, Seq::empty());
}

/// Parts are joined from left to right, with the separator between neighbours
/// and nowhere else.
pub proof fn law_joined(parts: Seq<Seq<char>>, part: Seq<char>, sep: Seq<char>)
    ensures
        text::joined(Seq::empty(), sep) == Seq::<char>::empty(),
        text::joined(seq![part], sep) == part,
        parts.len() > 0 ==> text::joined(parts.push(part), sep) == text::joined(parts, sep) + sep
            + part,
{
    assert(parts.push(part).drop_last() =~= parts);
}

proof fn lemma_words_begin(pre: Seq<char>, s: Seq<char>, i: int, cur: Seq<char>)
    requires
        0 <= i <= s.len(),
    ensures
        text::words_from(pre + s, pre.len() + i, cur) == text::words_from(s, i, cur),
    decreases s.len() - i,
{
    if i < s.len() {
        assert((pre + s)[pre.len() + i] == s[i]);
        if text::whitespace(s[i]) {
            lemma_words_begin(pre, s, i + 1, Seq::empty());
        } else {
            lemma_words_begin(pre, s, i + 1, cur.push(s[i]));
        }
    }
}

proof fn lemma_words_meet(a: Seq<char>, c: char, b: Seq<char>, i: int, cur: Seq<char>)
    requires
        text::whitespace(c),
        0 <= i <= a.len(),
    ensures
        text::words_from(a + seq![c] + b, i, cur) == text::words_from(a, i, cur) + text::words(b),
    decreases a.len() - i,
{
    let s = a + seq![c] + b;
    if i < a.len() {
        assert(s[i] == a[i]);
        if text::whitespace(a[i]) {
            lemma_words_meet(a, c, b, i + 1, Seq::empty());
            assert(text::nonempty(cur) + (text::words_from(a, i + 1, Seq::empty()) + text::words(b))
                =~= text::nonempty(cur) + text::words_from(a, i + 1, Seq::empty()) + text::words(
                b,
            ));
        } else {
            lemma_words_meet(a, c, b, i + 1, cur.push(a[i]));
        }
    } else {
        assert(s[i] == c);
        assert(s =~= (a + seq![c]) + b);
        lemma_words_begin(a + seq![c], b, 0, Seq::empty());
    }
}

/// Whitespace separates words and stands in none of them: a text without it is
/// one word, and where it stands the words before it are followed by the words
/// behind it.
pub proof fn law_words(a: Seq<char>, c: char, b: Seq<char>)
    requires
        text::whitespace(c),
    ensures
        text::words(a + seq![c] + b) == text::words(a) + text::words(b),
        wordlaws::spaceless(a) && a.len() > 0 ==> text::words(a) == seq![a],
        text::words(Seq::empty()) == Seq::<Seq<char>>::empty(),
{
    lemma_words_meet(a, c, b, 0, Seq::empty());
    if wordlaws::spaceless(a) && a.len() > 0 {
        wordlaws::law_joined_words_split(seq![a]);
        assert(text::joined(seq![a], " "@) == a);
    }
}

proof fn lemma_no_value(s: Seq<char>, k: int)
    requires
        0 <= k < s.len(),
        !text::ascii_digit(s[k]),
    ensures
        text::digits_value(s) is None,
    decreases s.len(),
{
    if k < s.len() - 1 {
        assert(s.drop_last()[k] == s[k]);
        lemma_no_value(s.drop_last(), k);
    }
}

/// A number may have a `+` in front, or a `-` where it may be negative; it is
/// refused where it is out of range or where anything but digits stands behind
/// its sign.
pub proof fn law_numbers(n: nat, lo: int, hi: int, s: Seq<char>, k: int)
    requires
        lo <= 0 <= hi,
    ensures
        text::parse_int(seq!['+'] + text::decimal(n), lo, hi) == if n <= hi {
            Some(n as int)
        } else {
            None
        },
        text::parse_int(text::decimal(n), lo, hi) == if n <= hi {
            Some(n as int)
        } else {
            None
        },
        1 <= k < s.len() && !('0' <= s[k] && s[k] <= '9') ==> text::parse_int(s, lo, hi) is None,
        s.len() == 0 ==> text::parse_int(s, lo, hi) is None,
        lo == 0 ==> text::parse_int(seq!['-'] + text::decimal(n), lo, hi) is None,
        lo < 0 ==> text::parse_int(seq!['-'] + text::decimal(n), lo, hi) == if lo <= -n {
            Some(-n)
        } else {
            None
        },
{
    arithlaws::law_decimal(n);
    let d = text::decimal(n);
    let p = seq!['+'] + d;
    assert(p.skip(1) =~= d);
    let m = seq!['-'] + d;
    assert(m.skip(1) =~= d);
    assert(m[0] == '-');
    lemma_no_value(m, 0);
    assert(text::ascii_digit(d[0]));
    if 1 <= k < s.len() && !('0' <= s[k] && s[k] <= '9') {
        assert(s.skip(1)[k - 1] == s[k]);
        lemma_no_value(s, k);
        lemma_no_value(s.skip(1), k - 1);
    }
}

/// A text begins with another exactly if the other with something behind it
/// makes the text.
pub proof fn law_begins_with(s: Seq<char>, p: Seq<char>, rest: Seq<char>)
    ensures
        text::begins_with(p + rest, p),
        text::begins_with(s, p) ==> s == p + s.skip(p.len() as int),
{
    assert((p + rest).take(p.len() as int) =~= p);
    if text::begins_with(s, p) {
        assert(s =~= s.take(p.len() as int) + s.skip(p.len() as int));
    }
}

proof fn lemma_parts(
    a: Seq<char>,
    c: char,
    b: Seq<char>,
    i: int,
)
    requires
        lacks(a, c),
        0 <= i <= a.len(),
    ensures
        builtins::parts_from(a + seq![c] + b, 0, i, c, Seq::empty()) == builtins::parts_from(
            a + seq![c] + b,
            (a.len() + 1) as int,
            (a.len() + 1) as int,
            c,
            seq![a],
        ),
    decreases a.len() - i,
{
    let s = a + seq![c] + b;
    if i < a.len() {
        assert(s[i] == a[i]);
        lemma_parts(a, c, b, i + 1);
    } else {
        assert(s[i] == c);
        assert(s.subrange(0, i) =~= a);
        assert(Seq::empty().push(a) =~= seq![a]);
    }
}

proof fn lemma_parts_begin(
    pre: Seq<char>,
    s: Seq<char>,
    from: int,
    i: int,
    c: char,
    first: Seq<Seq<char>>,
    acc: Seq<Seq<char>>,
)
    requires
        0 <= from <= i <= s.len(),
    ensures
        builtins::parts_from(pre + s, pre.len() + from, pre.len() + i, c, first + acc) == first
            + builtins::parts_from(s, from, i, c, acc),
    decreases s.len() - i,
{
    let t = pre + s;
    let n = pre.len() as int;
    if i < s.len() {
        assert(t[n + i] == s[i]);
        if s[i] == c {
            assert(t.subrange(n + from, n + i) =~= s.subrange(from, i));
            assert((first + acc).push(s.subrange(from, i)) =~= first + acc.push(
                s.subrange(from, i),
            ));
            lemma_parts_begin(pre, s, i + 1, i + 1, c, first, acc.push(s.subrange(from, i)));
        } else {
            lemma_parts_begin(pre, s, from, i + 1, c, first, acc);
        }
    } else {
        assert(t.subrange(n + from, t.len() as int) =~= s.subrange(from, s.len() as int));
        assert((first + acc).push(s.subrange(from, i)) =~= first + acc.push(s.subrange(from, i)));
    }
}

proof fn lemma_one_part(s: Seq<char>, c: char, i: int)
    requires
        lacks(s, c),
        0 <= i <= s.len(),
    ensures
        builtins::parts_from(s, 0, i, c, Seq::empty()) == seq![s],
    decreases s.len() - i,
{
    if i < s.len() {
        lemma_one_part(s, c, i + 1);
    } else {
        assert(s.subrange(0, i) =~= s);
        assert(Seq::empty().push(s) =~= seq![s]);
    }
}

/// A list in one text, such as `PATH`, falls into its parts: what stands before
/// the first separator is the first part, and the parts of the rest follow. A
/// text without a separator is one part.
pub proof fn law_parts(a: Seq<char>, c: char, b: Seq<char>)
    requires
        lacks(a, c),
    ensures
        builtins::parts(a, c) == seq![a],
        builtins::parts(a + seq![c] + b, c) == seq![a] + builtins::parts(b, c),
{
    lemma_one_part(a, c, 0);
    lemma_parts(a, c, b, 0);
    let pre = a + seq![c];
    assert(a + seq![c] + b =~= pre + b);
    lemma_parts_begin(pre, b, 0, 0, c, seq![a], Seq::empty());
    assert(seq![a] + Seq::empty() =~= seq![a]);
}

} // verus!
