//! Laws of expansion: fields, parameters, and the output of commands.

use crate::arith;
use crate::arithlaws;
use crate::expand;
use crate::executor;
use crate::quoting;
use crate::text;
use crate::tokenizer;
use crate::tokenizer::MARK;
use crate::vars;
use vstd::prelude::*;

verus! {

// ---------------------------------------------------------------------------
// Fields.
// ---------------------------------------------------------------------------

pub proof fn lemma_strip_markless(s: Seq<char>, i: int, acc: Seq<char>)
    requires
        quoting::markless(s),
        0 <= i <= s.len(),
    ensures
        expand::stripped_from(s, i, acc) == acc + s.skip(i),
    decreases s.len() - i,
{
    if i == s.len() {
        assert(acc + s.skip(i) =~= acc);
    } else {
        lemma_strip_markless(s, i + 1, acc.push(s[i]));
        assert(acc.push(s[i]) + s.skip(i + 1) =~= acc + s.skip(i));
    }
}

/// The removal of marks takes nothing back.
proof fn lemma_stripped_grows(s: Seq<char>, i: int, acc: Seq<char>)
    ensures
        expand::stripped_from(s, i, acc).len() >= acc.len(),
    decreases s.len() - i,
{
    if 0 <= i < s.len() {
        lemma_stripped_grows(s, i + 1, acc.push(s[i]));
        if i + 1 < s.len() {
            lemma_stripped_grows(s, i + 2, acc.push(s[i + 1]));
        }
    }
}

/// A run that is empty, or that its marks leave something of.
spec fn kept(run: Seq<char>) -> bool {
    run.len() == 0 || run[0] != MARK || run.len() > 1
}

proof fn lemma_runs_kept(s: Seq<char>, i: int, cur: Seq<char>, acc: Seq<Seq<char>>)
    requires
        kept(cur),
        forall|k: int| 0 <= k < acc.len() ==> kept(#[trigger] acc[k]) && acc[k].len() > 0,
    ensures
        forall|k: int|
            0 <= k < expand::runs_from(s, i, cur, acc).len() ==> kept(
                #[trigger] expand::runs_from(s, i, cur, acc)[k],
            ) && expand::runs_from(s, i, cur, acc)[k].len() > 0,
    decreases s.len() - i,
{
    let closed = expand::closed_run(cur, acc);
    assert forall|k: int| 0 <= k < closed.len() implies kept(#[trigger] closed[k])
        && closed[k].len() > 0 by {
        if k < acc.len() {
            assert(closed[k] == acc[k]);
        }
    }
    let r = expand::runs_from(s, i, cur, acc);
    if 0 <= i < s.len() && !(s[i] == MARK && i + 1 >= s.len()) {
        if s[i] == MARK {
            let next = cur.push(MARK).push(s[i + 1]);
            lemma_runs_kept(s, i + 2, next, acc);
            assert(r == expand::runs_from(s, i + 2, next, acc));
        } else if text::whitespace(s[i]) {
            lemma_runs_kept(s, i + 1, Seq::empty(), closed);
            assert(r == expand::runs_from(s, i + 1, Seq::empty(), closed));
        } else {
            let next = cur.push(s[i]);
            assert(kept(next));
            lemma_runs_kept(s, i + 1, next, acc);
            assert(r == expand::runs_from(s, i + 1, next, acc));
        }
    } else {
        assert(r == closed);
    }
}

/// No field of a word is empty.
pub proof fn law_no_empty_fields(s: Seq<char>)
    ensures
        forall|k: int| 0 <= k < expand::fields(s).len() ==> (#[trigger] expand::fields(s)[k]).len()
            > 0,
{
    lemma_runs_kept(s, 0, Seq::empty(), Seq::empty());
    assert forall|k: int| 0 <= k < expand::fields(s).len() implies (#[trigger] expand::fields(
        s,
    )[k]).len() > 0 by {
        let run = expand::runs(s)[k];
        let none = Seq::<char>::empty();
        assert(kept(run) && run.len() > 0);
        lemma_stripped_grows(run, 1, none.push(run[0]));
        if run.len() > 1 {
            lemma_stripped_grows(run, 2, none.push(run[1]));
        }
    }
}

pub proof fn lemma_runs_are_words(s: Seq<char>, i: int, cur: Seq<char>, acc: Seq<Seq<char>>)
    requires
        quoting::markless(s),
        quoting::markless(cur),
        forall|k: int| 0 <= k < acc.len() ==> quoting::markless(#[trigger] acc[k]),
        0 <= i <= s.len(),
    ensures
        expand::runs_from(s, i, cur, acc) == acc + text::words_from(s, i, cur),
        forall|k: int|
            0 <= k < expand::runs_from(s, i, cur, acc).len() ==> quoting::markless(
                #[trigger] expand::runs_from(s, i, cur, acc)[k],
            ),
    decreases s.len() - i,
{
    let closed = expand::closed_run(cur, acc);
    assert(closed =~= acc + text::nonempty(cur));
    assert forall|k: int| 0 <= k < closed.len() implies quoting::markless(#[trigger] closed[k]) by {
        if k < acc.len() {
            assert(closed[k] == acc[k]);
        }
    }
    if i < s.len() {
        if text::whitespace(s[i]) {
            lemma_runs_are_words(s, i + 1, Seq::empty(), closed);
            assert(closed + text::words_from(s, i + 1, Seq::empty()) =~= acc + text::words_from(
                s,
                i,
                cur,
            ));
        } else {
            let next = cur.push(s[i]);
            assert(quoting::markless(next)) by {
                assert forall|k: int| 0 <= k < next.len() implies #[trigger] next[k] != MARK by {
                    if k < cur.len() {
                        assert(next[k] == cur[k]);
                    }
                }
            }
            lemma_runs_are_words(s, i + 1, next, acc);
        }
    }
}

/// A text without marks splits into its whitespace-separated words: no field
/// is empty, and whitespace at either end is dropped.
pub proof fn law_fields_are_words(s: Seq<char>)
    requires
        quoting::markless(s),
    ensures
        expand::fields(s) == text::words(s),
{
    lemma_runs_are_words(s, 0, Seq::empty(), Seq::empty());
    let runs = expand::runs(s);
    assert(Seq::empty() + text::words(s) =~= text::words(s));
    assert forall|k: int| 0 <= k < runs.len() implies expand::stripped(#[trigger] runs[k])
        == runs[k] by {
        lemma_strip_markless(runs[k], 0, Seq::empty());
        assert(Seq::empty() + runs[k].skip(0) =~= runs[k]);
    }
    assert(expand::fields(s) =~= runs);
}

/// A text without whitespace in it.
pub open spec fn spaceless(s: Seq<char>) -> bool {
    forall|k: int| 0 <= k < s.len() ==> !text::whitespace(#[trigger] s[k])
}

proof fn lemma_last_word(s: Seq<char>, from: int, j: int, cur: Seq<char>)
    requires
        0 <= from <= j <= s.len(),
        spaceless(s.skip(from)),
        cur == s.subrange(from, j),
    ensures
        text::words_from(s, j, cur) == text::nonempty(s.skip(from)),
    decreases s.len() - j,
{
    if j == s.len() {
        assert(cur =~= s.skip(from));
    } else {
        assert(s.skip(from)[j - from] == s[j]);
        assert(cur.push(s[j]) =~= s.subrange(from, j + 1));
        lemma_last_word(s, from, j + 1, cur.push(s[j]));
    }
}

proof fn lemma_words_append(a: Seq<char>, b: Seq<char>, i: int, cur: Seq<char>)
    requires
        spaceless(b),
        b.len() > 0,
        0 <= i <= a.len(),
    ensures
        text::words_from(a + seq![' '] + b, i, cur) == text::words_from(a, i, cur).push(b),
    decreases a.len() - i,
{
    let s = a + seq![' '] + b;
    if i == a.len() {
        assert(s[i] == ' ');
        let from = (a.len() + 1) as int;
        assert(s.skip(from) =~= b);
        assert(s.subrange(from, from) =~= Seq::<char>::empty());
        lemma_last_word(s, from, from, Seq::empty());
        assert(text::nonempty(cur) + seq![b] =~= text::nonempty(cur).push(b));
    } else {
        assert(s[i] == a[i]);
        if text::whitespace(a[i]) {
            lemma_words_append(a, b, i + 1, Seq::empty());
            assert(text::nonempty(cur) + text::words_from(a, i + 1, Seq::empty()).push(b) =~= (
            text::nonempty(cur) + text::words_from(a, i + 1, Seq::empty())).push(b));
        } else {
            lemma_words_append(a, b, i + 1, cur.push(a[i]));
        }
    }
}

/// Words with spaces in between split into these words again.
pub proof fn law_joined_words_split(parts: Seq<Seq<char>>)
    requires
        forall|k: int|
            0 <= k < parts.len() ==> (#[trigger] parts[k]).len() > 0 && spaceless(parts[k]),
    ensures
        text::words(text::joined(parts, " "@)) == parts,
    decreases parts.len(),
{
    reveal_strlit(" ");
    assert(" "@ =~= seq![' ']);
    if parts.len() == 0 {
        assert(text::words(Seq::<char>::empty()) =~= parts);
    } else if parts.len() == 1 {
        let s = parts[0];
        assert(s.skip(0) =~= s);
        assert(s.subrange(0, 0) =~= Seq::<char>::empty());
        lemma_last_word(s, 0, 0, Seq::empty());
        assert(text::nonempty(s) =~= parts);
    } else {
        let shorter = parts.drop_last();
        assert forall|k: int| 0 <= k < shorter.len() implies (#[trigger] shorter[k]).len() > 0
            && spaceless(shorter[k]) by {
            assert(shorter[k] == parts[k]);
        }
        law_joined_words_split(shorter);
        lemma_words_append(text::joined(shorter, " "@), parts.last(), 0, Seq::empty());
        assert(shorter.push(parts.last()) =~= parts);
    }
}

proof fn lemma_joined_markless(parts: Seq<Seq<char>>)
    requires
        forall|k: int| 0 <= k < parts.len() ==> quoting::markless(#[trigger] parts[k]),
    ensures
        quoting::markless(text::joined(parts, " "@)),
    decreases parts.len(),
{
    reveal_strlit(" ");
    if parts.len() > 1 {
        let shorter = parts.drop_last();
        assert forall|k: int| 0 <= k < shorter.len() implies quoting::markless(
            #[trigger] shorter[k],
        ) by {
            assert(shorter[k] == parts[k]);
        }
        lemma_joined_markless(shorter);
        let a = text::joined(shorter, " "@);
        let all = text::joined(parts, " "@);
        assert forall|k: int| 0 <= k < all.len() implies #[trigger] all[k] != MARK by {
            if k < a.len() {
                assert(all[k] == a[k]);
            } else if k == a.len() {
                assert(all[k] == ' ');
            } else {
                assert(all[k] == parts.last()[k - a.len() - 1]);
            }
        }
    } else if parts.len() == 1 {
        assert(quoting::markless(parts[0]));
    }
}

/// An unquoted `$@` becomes one field for each positional parameter, as long
/// as none of them is empty or holds whitespace or a mark.
pub proof fn law_positional_fields(sc: arith::Scope, status: int)
    requires
        forall|k: int|
            0 <= k < sc.positional.len() ==> (#[trigger] sc.positional[k]).len() > 0 && spaceless(
                sc.positional[k],
            ) && quoting::markless(sc.positional[k]),
    ensures
        expand::expanded("$@"@, sc, status).1 == sc.vars,
        expand::fields(expand::expanded("$@"@, sc, status).0) == sc.positional,
{
    reveal_strlit("$@");
    reveal_with_fuel(expand::expanded_from, 2);
    let joined = text::joined(sc.positional, " "@);
    assert(Seq::<char>::empty() + joined =~= joined);
    assert(expand::expanded("$@"@, sc, status).0 == joined);
    lemma_joined_markless(sc.positional);
    law_fields_are_words(joined);
    law_joined_words_split(sc.positional);
}

// ---------------------------------------------------------------------------
// Parameters.
// ---------------------------------------------------------------------------

/// `$?` is the last status, within double quotes as well as outside.
pub proof fn law_status(sc: arith::Scope, status: int)
    ensures
        expand::expanded(seq!['$', '?'], sc, status) == (text::decimal_int(status), sc.vars),
        expand::expanded(seq!['$', MARK, '?'], sc, status) == (
            text::decimal_int(status),
            sc.vars,
        ),
{
    reveal_with_fuel(expand::expanded_from, 2);
    let t = text::decimal_int(status);
    assert(Seq::<char>::empty() + t =~= t);
    if status < 0 {
        arithlaws::law_decimal((-status) as nat);
    } else {
        arithlaws::law_decimal(status as nat);
    }
    assert forall|k: int| 0 <= k < t.len() implies !tokenizer::literal_special(
        #[trigger] t[k],
    ) by {
        if status < 0 && k > 0 {
            assert(t[k] == text::decimal((-status) as nat)[k - 1]);
        }
        assert(text::ascii_digit(t[k]) || t[k] == '-');
    }
    lemma_nothing_protected(t);
}

/// A text without special characters needs no protection.
proof fn lemma_nothing_protected(t: Seq<char>)
    requires
        forall|k: int| 0 <= k < t.len() ==> !tokenizer::literal_special(#[trigger] t[k]),
    ensures
        expand::protected(t) == t,
    decreases t.len(),
{
    if t.len() > 0 {
        let front = t.drop_last();
        assert forall|k: int| 0 <= k < front.len() implies !tokenizer::literal_special(
            #[trigger] front[k],
        ) by {
            assert(front[k] == t[k]);
        }
        lemma_nothing_protected(front);
        assert(!tokenizer::literal_special(t[t.len() - 1]));
        assert(front + seq![t.last()] =~= t);
    } else {
        assert(t =~= Seq::empty());
    }
}

/// A name holds no colon, denotes no number and is not `@` or `#...`.
pub proof fn lemma_name(name: Seq<char>)
    requires
        expand::valid_name(name),
    ensures
        quoting::free_of(name, ':'),
        name[0] != '#',
        name[0] != '@',
        text::parse_int(name, 0, usize::MAX as int) is None,
{
    assert forall|k: int| 0 <= k < name.len() implies #[trigger] name[k] != ':' by {
        if k > 0 {
            assert(arith::name_char(name[k]));
        }
    }
    assert(name.take(1).len() == 1 && name.take(1).last() == name[0]);
    assert(text::digits_value(name.take(1)) is None);
    text::lemma_digits_prefix(name, 1);
}

/// The operator behind a name is the first one, whatever the word holds.
proof fn lemma_operator(name: Seq<char>, op: char, word: Seq<char>, i: int)
    requires
        quoting::free_of(name, ':'),
        expand::operator_char(op),
        0 <= i <= name.len(),
    ensures
        expand::operator_from(name + seq![':', op] + word, i) == Some((op, name.len() as int)),
    decreases name.len() - i,
{
    let s = name + seq![':', op] + word;
    if i < name.len() {
        assert(s[i] == name[i]);
        lemma_operator(name, op, word, i + 1);
    } else {
        assert(s[i] == ':' && s[i + 1] == op);
    }
}

pub proof fn lemma_no_operator(s: Seq<char>, i: int)
    requires
        0 <= i,
        forall|k: int| i <= k < s.len() ==> #[trigger] s[k] != ':',
    ensures
        expand::operator_from(s, i) is None,
    decreases s.len() - i,
{
    if i + 1 < s.len() {
        assert(s[i] != ':');
        lemma_no_operator(s, i + 1);
    }
}

/// What stands in braces: a name, an operator and a word.
pub open spec fn with_operator(name: Seq<char>, op: char, word: Seq<char>) -> Seq<char> {
    name + seq![':', op] + word
}

pub proof fn lemma_braced(name: Seq<char>, op: char, word: Seq<char>, sc: arith::Scope)
    requires
        expand::valid_name(name),
        expand::operator_char(op),
    ensures
        expand::braced(with_operator(name, op, word), sc) == expand::conditional(
            op,
            name,
            word,
            sc.vars,
        ),
{
    let s = with_operator(name, op, word);
    lemma_name(name);
    assert(s[0] == name[0]);
    assert(s.take(name.len() as int) =~= name);
    assert(s.skip((name.len() + 2) as int) =~= word);
    assert(s != "@"@) by {
        reveal_strlit("@");
    }
    assert(s.take(1).len() == 1 && s.take(1).last() == s[0]);
    assert(text::digits_value(s.take(1)) is None);
    text::lemma_digits_prefix(s, 1);
    lemma_operator(name, op, word, 0);
}

/// `${NAME:-word}` and `${NAME:=word}` give the word where the variable is
/// unset or empty, and its value otherwise. Only the second one assigns: the
/// variable then has the word, without its marks, as its value.
pub proof fn law_default_values(name: Seq<char>, word: Seq<char>, sc: arith::Scope)
    requires
        expand::valid_name(name),
    ensures
        expand::braced(with_operator(name, '-', word), sc) == (
            if sc.vars.value(name).len() == 0 {
                word
            } else {
                sc.vars.value(name)
            },
            sc.vars,
        ),
        expand::braced(with_operator(name, '=', word), sc).0 == expand::braced(
            with_operator(name, '-', word),
            sc,
        ).0,
        sc.vars.value(name).len() == 0 ==> expand::braced(
            with_operator(name, '=', word),
            sc,
        ).1.value(name) == expand::stripped(word),
        quoting::markless(word) ==> expand::stripped(word) == word,
        sc.vars.value(name).len() != 0 ==> expand::braced(with_operator(name, '=', word), sc).1
            == sc.vars,
{
    lemma_braced(name, '-', word, sc);
    lemma_braced(name, '=', word, sc);
    vars::law_export_and_assignment(sc.vars, name, expand::stripped(word));
    if quoting::markless(word) {
        lemma_strip_markless(word, 0, Seq::empty());
        assert(Seq::empty() + word.skip(0) =~= word);
    }
}

/// `${NAME:+word}` gives the word where the variable has a value, and nothing
/// otherwise; `${NAME:?word}` gives the value, or nothing and a diagnostic.
pub proof fn law_alternative_values(name: Seq<char>, word: Seq<char>, sc: arith::Scope)
    requires
        expand::valid_name(name),
    ensures
        expand::braced(with_operator(name, '+', word), sc) == (
            if sc.vars.value(name).len() == 0 {
                Seq::empty()
            } else {
                word
            },
            sc.vars,
        ),
        expand::braced(with_operator(name, '?', word), sc) == if sc.vars.value(name).len() == 0 {
            (Seq::empty(), sc.vars.notice(expand::unset_notice(name, expand::stripped(word))))
        } else {
            (sc.vars.value(name), sc.vars)
        },
{
    lemma_braced(name, '+', word, sc);
    lemma_braced(name, '?', word, sc);
}

/// `:=` stands at `k`, with or without a mark in it.
pub open spec fn assigns_at(s: Seq<char>, k: int) -> bool {
    &&& 0 <= k && k + 1 < s.len() && s[k] == ':'
    &&& s[k + 1] == '=' || (s[k + 1] == MARK && k + 2 < s.len() && s[k + 2] == '=')
}

/// No `:=` stands in a text.
pub open spec fn unassigning(s: Seq<char>) -> bool {
    forall|k: int| !#[trigger] assigns_at(s, k)
}

/// `:=` stands at `k`, without a mark.
spec fn operator_at(s: Seq<char>, k: int) -> bool {
    0 <= k && k + 1 < s.len() && s[k] == ':' && s[k + 1] == '='
}

/// The removal of marks makes no `:=`.
proof fn lemma_stripped_unassigning(s: Seq<char>, i: int, acc: Seq<char>)
    requires
        unassigning(s),
        forall|k: int| !#[trigger] operator_at(acc, k),
        0 <= i <= s.len(),
        acc.len() > 0 && acc.last() == ':' ==> i > 0 && s[i - 1] == ':',
    ensures
        forall|k: int| !#[trigger] operator_at(expand::stripped_from(s, i, acc), k),
    decreases s.len() - i,
{
    let r = expand::stripped_from(s, i, acc);
    if i < s.len() {
        assert(!assigns_at(s, i - 1));
        if s[i] != MARK {
            let next = acc.push(s[i]);
            lemma_pushed_unassigning(acc, s[i]);
            lemma_stripped_unassigning(s, i + 1, next);
            assert(r == expand::stripped_from(s, i + 1, next));
        } else if i + 1 < s.len() {
            let next = acc.push(s[i + 1]);
            lemma_pushed_unassigning(acc, s[i + 1]);
            lemma_stripped_unassigning(s, i + 2, next);
            assert(r == expand::stripped_from(s, i + 2, next));
        } else {
            assert(r == acc);
        }
    } else {
        assert(r == acc);
    }
}

proof fn lemma_pushed_unassigning(acc: Seq<char>, c: char)
    requires
        forall|k: int| !#[trigger] operator_at(acc, k),
        acc.len() > 0 && acc.last() == ':' ==> c != '=',
    ensures
        forall|k: int| !#[trigger] operator_at(acc.push(c), k),
{
    let next = acc.push(c);
    assert forall|k: int| !#[trigger] operator_at(next, k) by {
        if 0 <= k && k + 2 < next.len() {
            assert(next[k] == acc[k] && next[k + 1] == acc[k + 1]);
            assert(!operator_at(acc, k));
        }
    }
}

proof fn lemma_operator_found(s: Seq<char>, i: int)
    ensures
        expand::operator_from(s, i) matches Some((op, p)) ==> 0 <= p && p + 1 < s.len() && s[p]
            == ':' && s[p + 1] == op,
    decreases s.len() - i,
{
    if 0 <= i && i + 1 < s.len() && !(s[i] == ':' && expand::operator_char(s[i + 1])) {
        lemma_operator_found(s, i + 1);
    }
}

/// The variables are the same, in the shell and for children.
pub open spec fn same_values(a: vars::VarsModel, b: vars::VarsModel) -> bool {
    a.shell == b.shell && a.env == b.env
}

proof fn lemma_braced_keeps(inner: Seq<char>, sc: arith::Scope)
    requires
        forall|k: int| !#[trigger] operator_at(inner, k),
    ensures
        same_values(expand::braced(inner, sc).1, sc.vars),
{
    lemma_operator_found(inner, 0);
    if let Some((op, p)) = expand::operator_of(inner) {
        assert(!operator_at(inner, p));
    }
}

proof fn lemma_reference_keeps(
    s: Seq<char>,
    j: int,
    quoted: bool,
    sc: arith::Scope,
    status: int,
)
    requires
        unassigning(s),
        0 <= j,
    ensures
        expand::reference(s, j, quoted, sc, status) matches Some(e) ==> same_values(
            e.vars,
            sc.vars,
        ),
{
    expand::lemma_find_char(s, j + 1, '}');
    if let Some(k) = text::find_char(s, j + 1, '}') {
        let inner = s.subrange(j + 1, k);
        let none = Seq::<char>::empty();
        assert forall|m: int| !#[trigger] assigns_at(inner, m) by {
            assert(!assigns_at(s, j + 1 + m));
        }
        assert forall|m: int| !#[trigger] operator_at(inner, m) by {
            assert(!assigns_at(inner, m));
        }
        lemma_stripped_unassigning(inner, 0, none);
        lemma_braced_keeps(inner, sc);
        lemma_braced_keeps(expand::stripped(inner), sc);
    }
}

proof fn lemma_expanded_keeps(
    s: Seq<char>,
    i: int,
    acc: Seq<char>,
    sc: arith::Scope,
    status: int,
)
    requires
        unassigning(s),
    ensures
        same_values(expand::expanded_from(s, i, acc, sc, status).1, sc.vars),
    decreases s.len() - i,
{
    if 0 <= i < s.len() {
        expand::lemma_expansion(s, i, sc, status);
        let e = expand::expansion(s, i, sc, status);
        lemma_reference_keeps(s, i + 1, false, sc, status);
        lemma_reference_keeps(s, i + 2, true, sc, status);
        lemma_expanded_keeps(
            s,
            e.next,
            acc + e.text,
            arith::Scope { vars: e.vars, positional: sc.positional },
            status,
        );
    }
}

/// Only `${NAME:=word}` assigns: expanding a text without `:=` leaves every
/// variable as it was, in the shell and for children.
pub proof fn law_only_defaults_assign(s: Seq<char>, sc: arith::Scope, status: int)
    requires
        unassigning(s),
    ensures
        expand::expanded(s, sc, status).1.shell == sc.vars.shell,
        expand::expanded(s, sc, status).1.env == sc.vars.env,
{
    lemma_expanded_keeps(s, 0, Seq::empty(), sc, status);
}

// ---------------------------------------------------------------------------
// Command output.
// ---------------------------------------------------------------------------

/// The output of a command loses the newlines at its end, and nothing else.
pub proof fn law_trailing_newlines(t: Seq<char>)
    ensures
        executor::without_newlines(t).len() <= t.len(),
        executor::without_newlines(t) == t.take(executor::without_newlines(t).len() as int),
        forall|k: int|
            executor::without_newlines(t).len() <= k < t.len() ==> #[trigger] t[k] == '\n',
        executor::without_newlines(t).len() > 0 ==> executor::without_newlines(t).last() != '\n',
    decreases t.len(),
{
    if t.len() > 0 && t.last() == '\n' {
        law_trailing_newlines(t.drop_last());
        let r = executor::without_newlines(t);
        assert(t.drop_last().take(r.len() as int) =~= t.take(r.len() as int));
        assert forall|k: int| r.len() <= k < t.len() implies #[trigger] t[k] == '\n' by {
            if k < t.len() - 1 {
                assert(t.drop_last()[k] == '\n');
            }
        }
    } else {
        assert(t.take(t.len() as int) =~= t);
    }
}

// ---------------------------------------------------------------------------
// Comments.
// ---------------------------------------------------------------------------

/// Where a token may begin, `#` begins a comment: the rest of its line does
/// not matter, and the tokens go on at the next newline.
pub proof fn law_comments(s: Seq<char>, i: int, tokens: Seq<tokenizer::TokenModel>)
    requires
        0 <= i < s.len(),
        s[i] == '#',
    ensures
        i < tokenizer::line_end(s, i) <= s.len(),
        tokenizer::line_end(s, i) < s.len() ==> s[tokenizer::line_end(s, i)] == '\n',
        forall|k: int| i <= k < tokenizer::line_end(s, i) ==> #[trigger] s[k] != '\n',
        tokenizer::tokens_from(s, i, tokens) == tokenizer::tokens_from(
            s,
            tokenizer::line_end(s, i),
            tokens,
        ),
{
    tokenizer::lemma_line_end(s, i + 1);
    tokenizer::lemma_lex_progress(s, i);
}

// ---------------------------------------------------------------------------
// Plain words and backquotes.
// ---------------------------------------------------------------------------

/// A character that means nothing but itself within a word.
pub open spec fn ordinary(c: char) -> bool {
    &&& !tokenizer::ends_word(c)
    &&& c != '\'' && c != '"' && c != '`' && c != '\\' && c != '$' && c != '{' && c != '}'
    &&& c != '*' && c != '?' && c != '[' && c != '~' && c != MARK
}

proof fn lemma_plain(t: Seq<char>, i: int)
    requires
        forall|k: int| 0 <= k < t.len() ==> ordinary(#[trigger] t[k]),
        0 <= i <= t.len(),
    ensures
        tokenizer::word_from(t, i, t.take(i)) == Ok::<(Seq<char>, int), Seq<char>>(
            (t, t.len() as int),
        ),
    decreases t.len() - i,
{
    if i == t.len() {
        assert(t.take(i) =~= t);
    } else {
        assert(ordinary(t[i]));
        assert(t.take(i).push(t[i]) =~= t.take(i + 1));
        lemma_plain(t, i + 1);
    }
}

/// A word of ordinary characters stands for itself, from the text to the
/// argument of the command.
pub proof fn law_plain_word(
    t: Seq<char>,
    outputs: Seq<Seq<char>>,
    sc: arith::Scope,
    status: int,
    command: bool,
    paths: Seq<Seq<char>>,
)
    requires
        t.len() > 0,
        forall|k: int| 0 <= k < t.len() ==> ordinary(#[trigger] t[k]),
    ensures
        tokenizer::tokens_of(t) == Ok::<Seq<tokenizer::TokenModel>, Seq<char>>(
            seq![tokenizer::TokenModel::Word(t)],
        ),
        expand::resolved(t, outputs, sc, status) == (t, sc.vars),
        expand::plan_words(expand::plan_of(t, command), paths) == seq![t],
{
    assert(ordinary(t[0]));
    assert(t.take(0) =~= Seq::<char>::empty());
    lemma_plain(t, 0);
    assert(t.len() > 1 ==> ordinary(t[1]));
    reveal_with_fuel(tokenizer::tokens_from, 2);
    assert(tokenizer::tokens_of(t) == Ok::<Seq<tokenizer::TokenModel>, Seq<char>>(
        Seq::empty().push(tokenizer::TokenModel::Word(t)),
    ));
    assert(Seq::empty().push(tokenizer::TokenModel::Word(t)) =~= seq![
        tokenizer::TokenModel::Word(t),
    ]);
    let marks = |c: char| false;
    lemma_unmarked(t, 0, marks);
    assert(t.skip(0) =~= t);
    quoting::law_marked_text_is_literal(t, marks, outputs, sc, status, command, paths);
}

pub proof fn lemma_unmarked(t: Seq<char>, i: int, marks: spec_fn(char) -> bool)
    requires
        forall|c: char| !#[trigger] marks(c),
        0 <= i <= t.len(),
    ensures
        quoting::encoded_from(t, i, marks) == t.skip(i),
    decreases t.len() - i,
{
    if i < t.len() {
        lemma_unmarked(t, i + 1, marks);
        assert(seq![t[i]] + t.skip(i + 1) =~= t.skip(i));
    } else {
        assert(t.skip(i) =~= Seq::<char>::empty());
    }
}

proof fn lemma_backquoted(t: Seq<char>, i: int)
    requires
        quoting::free_of(t, '`'),
        quoting::free_of(t, '\\'),
        0 <= i <= t.len(),
    ensures
        tokenizer::backtick_from(quoting::quoted('`', t), i + 1, t.take(i)) == Some(
            (t, (t.len() + 2) as int),
        ),
    decreases t.len() - i,
{
    let s = quoting::quoted('`', t);
    if i == t.len() {
        assert(s[i + 1] == '`');
        assert(t.take(i) =~= t);
    } else {
        assert(s[i + 1] == t[i]);
        assert(t.take(i).push(t[i]) =~= t.take(i + 1));
        lemma_backquoted(t, i + 1);
    }
}

/// Backquotes are another way to write `$(...)`.
pub proof fn law_backquotes(t: Seq<char>)
    requires
        quoting::free_of(t, '`'),
        quoting::free_of(t, '\\'),
        tokenizer::subst_end(seq!['$', '('] + t + seq![')'], 2, 1) == Some((t.len() + 2) as int),
    ensures
        tokenizer::tokens_of(quoting::quoted('`', t)) == tokenizer::tokens_of(
            seq!['$', '('] + t + seq![')'],
        ),
        tokenizer::tokens_of(quoting::quoted('`', t)) == Ok::<
            Seq<tokenizer::TokenModel>,
            Seq<char>,
        >(seq![tokenizer::TokenModel::Word(seq!['$', '('] + t + seq![')'])]),
{
    let a = quoting::quoted('`', t);
    let b = seq!['$', '('] + t + seq![')'];
    let none = Seq::<char>::empty();
    assert(t.take(0) =~= none);
    lemma_backquoted(t, 0);
    assert(a[0] == '`');
    assert(b[0] == '$' && b[1] == '(');
    assert(none + seq!['$', '('] + t + seq![')'] =~= b);
    assert(b.subrange(0, b.len() as int) =~= b);
    assert(none + b =~= b);
    reveal_with_fuel(tokenizer::word_from, 2);
    reveal_with_fuel(tokenizer::tokens_from, 2);
    assert(tokenizer::tokens_of(a) == Ok::<Seq<tokenizer::TokenModel>, Seq<char>>(
        Seq::empty().push(tokenizer::TokenModel::Word(b)),
    ));
    assert(tokenizer::tokens_of(b) == Ok::<Seq<tokenizer::TokenModel>, Seq<char>>(
        Seq::empty().push(tokenizer::TokenModel::Word(b)),
    ));
    assert(Seq::empty().push(tokenizer::TokenModel::Word(b)) =~= seq![
        tokenizer::TokenModel::Word(b),
    ]);
}

} // verus!
