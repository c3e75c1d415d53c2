//! Laws of parameters in the midst of a text, and of the numbers and operators
//! of arithmetic.

use crate::arith;
use crate::arithlaws;
use crate::expand;
use crate::interpolation;
use crate::pathlaws;
use crate::quoting;
use crate::table;
use crate::text;
use crate::tokenizer::MARK;
use crate::vars;
use crate::wordlaws;
use vstd::prelude::*;

verus! {

// ---------------------------------------------------------------------------
// Variables.
// ---------------------------------------------------------------------------

/// A variable of the shell comes before one of the environment, and a name
/// that is neither has the empty value.
pub proof fn law_lookup(v: vars::VarsModel, name: Seq<char>)
    ensures
        table::lookup(v.shell, name) matches Some(t) ==> v.value(name) == t,
        table::lookup(v.shell, name) is None ==> (table::lookup(v.env, name) matches Some(t)
            ==> v.value(name) == t),
        table::lookup(v.shell, name) is None && table::lookup(v.env, name) is None ==> v.value(
            name,
        ).len() == 0,
{
}

/// What has no value is reported by its name and the message, or by a message
/// of its own where none is given.
pub proof fn law_unset_message(name: Seq<char>, word: Seq<char>, sc: arith::Scope)
    requires
        expand::valid_name(name),
        quoting::markless(word),
        sc.vars.value(name).len() == 0,
    ensures
        ({
            let r = expand::braced(wordlaws::with_operator(name, '?', word), sc);
            &&& r.0.len() == 0
            &&& r.1.notices.len() == sc.vars.notices.len() + 1
            &&& r.1.notices.drop_last() == sc.vars.notices
            &&& r.1.notices.last() == "rsh: "@ + name + ": "@ + if word.len() > 0 {
                word
            } else {
                "parameter null or not set"@
            }
            &&& r.1.shell == sc.vars.shell
            &&& r.1.env == sc.vars.env
        }),
{
    wordlaws::law_alternative_values(name, word, sc);
    wordlaws::lemma_strip_markless(word, 0, Seq::empty());
    assert(Seq::empty() + word.skip(0) =~= word);
    let r = expand::braced(wordlaws::with_operator(name, '?', word), sc);
    assert(r.1.notices.drop_last() =~= sc.vars.notices);
}

/// `${NAME:=word}` on a name without a value exports it as well.
pub proof fn law_defaults_are_exported(name: Seq<char>, word: Seq<char>, sc: arith::Scope)
    requires
        expand::valid_name(name),
        quoting::markless(word),
        vars::env_value(word),
        sc.vars.value(name).len() == 0,
    ensures
        ({
            let r = expand::braced(wordlaws::with_operator(name, '=', word), sc);
            &&& r.0 == word
            &&& r.1.value(name) == word
            &&& table::lookup(r.1.env, name) == Some(word)
            &&& r.1.notices == sc.vars.notices
        }),
{
    wordlaws::lemma_braced(name, '=', word, sc);
    wordlaws::lemma_strip_markless(word, 0, Seq::empty());
    assert(Seq::empty() + word.skip(0) =~= word);
    interpolation::lemma_name_chars(name);
    assert(vars::env_name(name)) by {
        if name.contains('=') {
            let k = choose|k: int| 0 <= k < name.len() && name[k] == '=';
            assert(arith::name_char(name[k]));
        }
        if name.contains('\0') {
            let k = choose|k: int| 0 <= k < name.len() && name[k] == '\0';
            assert(arith::name_char(name[k]));
        }
    }
    vars::law_export_and_assignment(sc.vars, name, word);
}

// ---------------------------------------------------------------------------
// Parameters within a text.
// ---------------------------------------------------------------------------

proof fn lemma_inert_end(s: Seq<char>, i: int, acc: Seq<char>, sc: arith::Scope, status: int)
    requires
        0 <= i <= s.len(),
        pathlaws::inert(s.skip(i)),
    ensures
        expand::expanded_from(s, i, acc, sc, status) == (acc + s.skip(i), sc.vars),
    decreases s.len() - i,
{
    if i < s.len() {
        assert(s.skip(i)[0] == s[i]);
        assert forall|k: int| 0 <= k < s.skip(i + 1).len() implies #[trigger] s.skip(i + 1)[k]
            != '$' && s.skip(i + 1)[k] != MARK by {
            assert(s.skip(i)[k + 1] == s[i + 1 + k]);
        }
        assert(s.subrange(i, i + 1) =~= seq![s[i]]);
        lemma_inert_end(s, i + 1, acc + seq![s[i]], sc, status);
        assert(acc + seq![s[i]] + s.skip(i + 1) =~= acc + s.skip(i));
        let e = expand::expansion(s, i, sc, status);
        assert(e.text == seq![s[i]] && e.next == i + 1 && e.vars == sc.vars);
    } else {
        assert(acc + s.skip(i) =~= acc);
    }
}

proof fn lemma_inert_front(
    a: Seq<char>,
    s: Seq<char>,
    i: int,
    acc: Seq<char>,
    sc: arith::Scope,
    status: int,
)
    requires
        pathlaws::inert(a),
        0 <= i <= a.len(),
    ensures
        expand::expanded_from(a + s, i, acc, sc, status) == expand::expanded_from(
            a + s,
            a.len() as int,
            acc + a.skip(i),
            sc,
            status,
        ),
    decreases a.len() - i,
{
    let t = a + s;
    if i < a.len() {
        assert(t[i] == a[i]);
        assert(t.subrange(i, i + 1) =~= seq![a[i]]);
        let e = expand::expansion(t, i, sc, status);
        assert(e.text == seq![a[i]] && e.next == i + 1 && e.vars == sc.vars);
        lemma_inert_front(a, s, i + 1, acc + seq![a[i]], sc, status);
        assert(acc + seq![a[i]] + a.skip(i + 1) =~= acc + a.skip(i));
    } else {
        assert(acc + a.skip(i) =~= acc);
    }
}

proof fn lemma_name_stops(s: Seq<char>, at: int, name: Seq<char>, k: int)
    requires
        0 <= at,
        at + name.len() <= s.len(),
        s.subrange(at, at + name.len()) == name,
        at <= k <= at + name.len(),
        forall|j: int| 0 <= j < name.len() ==> arith::name_char(#[trigger] name[j]),
        at + name.len() == s.len() || !arith::name_char(s[at + name.len()]),
    ensures
        arith::name_end(s, k) == at + name.len(),
    decreases at + name.len() - k,
{
    if k < at + name.len() {
        assert(s[k] == s.subrange(at, at + name.len())[k - at]);
        assert(arith::name_char(name[k - at]));
        lemma_name_stops(s, at, name, k + 1);
    }
}

/// A text around a parameter that becomes `v` stays.
proof fn lemma_around(
    front: Seq<char>,
    param: Seq<char>,
    rest: Seq<char>,
    v: Seq<char>,
    sc: arith::Scope,
    status: int,
)
    requires
        pathlaws::inert(front),
        pathlaws::inert(rest),
        param.len() > 0,
        expand::expanded_from(
            front + param + rest,
            front.len() as int,
            front,
            sc,
            status,
        ) == expand::expanded_from(
            front + param + rest,
            (front.len() + param.len()) as int,
            front + v,
            sc,
            status,
        ),
    ensures
        expand::expanded(front + param + rest, sc, status) == (front + v + rest, sc.vars),
{
    let none = Seq::<char>::empty();
    let s = front + param + rest;
    assert(s =~= front + (param + rest));
    lemma_inert_front(front, param + rest, 0, none, sc, status);
    assert(front.skip(0) =~= front);
    assert(none + front =~= front);
    let at = (front.len() + param.len()) as int;
    assert(s.skip(at) =~= rest);
    lemma_inert_end(s, at, front + v, sc, status);
}

/// A braced parameter becomes what stands between its braces.
proof fn lemma_braces_in_text(
    front: Seq<char>,
    inner: Seq<char>,
    rest: Seq<char>,
    v: Seq<char>,
    sc: arith::Scope,
    status: int,
)
    requires
        pathlaws::inert(front),
        pathlaws::inert(rest),
        quoting::free_of(inner, '}'),
        expand::braced(inner, sc) == (v, sc.vars),
    ensures
        expand::expanded(front + interpolation::in_braces(inner) + rest, sc, status) == (
            front + v + rest,
            sc.vars,
        ),
{
    let b = front + interpolation::in_braces(inner) + rest;
    interpolation::lemma_param_expanded(b, front, inner, rest, sc, status, front);
    assert(arith::Scope { vars: sc.vars, positional: sc.positional } == sc);
    lemma_around(front, interpolation::in_braces(inner), rest, v, sc, status);
}

proof fn lemma_one_expansion(
    s: Seq<char>,
    i: int,
    acc: Seq<char>,
    v: Seq<char>,
    next: int,
    sc: arith::Scope,
    status: int,
)
    requires
        0 <= i < s.len(),
        expand::expansion(s, i, sc, status) == (expand::Expanded { text: v, next, vars: sc.vars }),
    ensures
        expand::expanded_from(s, i, acc, sc, status) == expand::expanded_from(
            s,
            next,
            acc + v,
            sc,
            status,
        ),
{
    assert(arith::Scope { vars: sc.vars, positional: sc.positional } == sc);
}

proof fn lemma_name_at(s: Seq<char>, at: int, name: Seq<char>, sc: arith::Scope, status: int)
    requires
        0 <= at,
        at + 1 + name.len() <= s.len(),
        s[at] == '$',
        s.subrange(at + 1, at + 1 + name.len()) == name,
        expand::valid_name(name),
        at + 1 + name.len() == s.len() || !arith::name_char(s[at + 1 + name.len()]),
    ensures
        expand::expansion(s, at, sc, status) == (expand::Expanded {
            text: sc.vars.value(name),
            next: at + 1 + name.len(),
            vars: sc.vars,
        }),
{
    interpolation::lemma_name_chars(name);
    assert(s[at + 1] == s.subrange(at + 1, at + 1 + name.len())[0]);
    lemma_name_stops(s, at + 1, name, at + 1);
}

proof fn lemma_name_braced(name: Seq<char>, sc: arith::Scope)
    requires
        expand::valid_name(name),
    ensures
        expand::braced(name, sc) == (sc.vars.value(name), sc.vars),
        quoting::free_of(name, '}'),
{
    interpolation::lemma_name_chars(name);
    wordlaws::lemma_name(name);
    reveal_strlit("@");
    assert(name != "@"@);
    wordlaws::lemma_no_operator(name, 0);
    assert forall|k: int| 0 <= k < name.len() implies #[trigger] name[k] != '}' by {
        assert(arith::name_char(name[k]));
    }
}

/// A variable within a text is its value there: the text in front stays, the
/// name goes as far as its characters do, and what is behind it stays.
pub proof fn law_variable_in_text(
    front: Seq<char>,
    name: Seq<char>,
    rest: Seq<char>,
    sc: arith::Scope,
    status: int,
)
    requires
        pathlaws::inert(front),
        expand::valid_name(name),
        pathlaws::inert(rest),
        rest.len() > 0 ==> !arith::name_char(rest[0]),
    ensures
        expand::expanded(front + seq!['$'] + name + rest, sc, status) == (
            front + sc.vars.value(name) + rest,
            sc.vars,
        ),
        expand::expanded(front + interpolation::in_braces(name) + rest, sc, status) == (
            front + sc.vars.value(name) + rest,
            sc.vars,
        ),
{
    let v = sc.vars.value(name);
    let at = front.len() as int;
    let param = seq!['$'] + name;
    let s = front + param + rest;
    assert(front + seq!['$'] + name + rest =~= s);
    assert(s.subrange(at + 1, at + 1 + name.len()) =~= name);
    assert(s[at] == '$');
    assert(rest.len() > 0 ==> s[at + 1 + name.len()] == rest[0]);
    lemma_name_at(s, at, name, sc, status);
    lemma_one_expansion(s, at, front, v, at + 1 + name.len(), sc, status);
    lemma_around(front, param, rest, v, sc, status);
    lemma_name_braced(name, sc);
    lemma_braces_in_text(front, name, rest, v, sc, status);
}

proof fn lemma_digits_stop(s: Seq<char>, at: int, d: Seq<char>, k: int)
    requires
        0 <= at,
        at + d.len() <= s.len(),
        s.subrange(at, at + d.len()) == d,
        at <= k <= at + d.len(),
        forall|j: int| 0 <= j < d.len() ==> text::ascii_digit(#[trigger] d[j]),
        at + d.len() == s.len() || !text::ascii_digit(s[at + d.len()]),
    ensures
        arith::digits_end(s, k) == at + d.len(),
    decreases at + d.len() - k,
{
    if k < at + d.len() {
        assert(s[k] == s.subrange(at, at + d.len())[k - at]);
        assert(text::ascii_digit(d[k - at]));
        lemma_digits_stop(s, at, d, k + 1);
    }
}

proof fn lemma_digits_at(s: Seq<char>, n: nat, sc: arith::Scope, status: int)
    requires
        n <= usize::MAX,
        1 + text::decimal(n).len() <= s.len(),
        s[0] == '$',
        s.subrange(1, 1 + text::decimal(n).len() as int) == text::decimal(n),
        1 + text::decimal(n).len() == s.len() || !text::ascii_digit(
            s[1 + text::decimal(n).len() as int],
        ),
    ensures
        expand::expansion(s, 0, sc, status) == (expand::Expanded {
            text: arith::positional_value(n as int, sc.positional),
            next: 1 + text::decimal(n).len() as int,
            vars: sc.vars,
        }),
{
    let d = text::decimal(n);
    arithlaws::law_decimal(n);
    arithlaws::law_decimal_reads_back(n as int, 0, usize::MAX as int);
    assert(s[1] == s.subrange(1, 1 + d.len() as int)[0]);
    assert(text::ascii_digit(d[0]));
    lemma_digits_stop(s, 1, d, 1);
}

proof fn lemma_digits_braced(n: nat, sc: arith::Scope)
    requires
        n <= usize::MAX,
    ensures
        expand::braced(text::decimal(n), sc) == (
            arith::positional_value(n as int, sc.positional),
            sc.vars,
        ),
        quoting::free_of(text::decimal(n), '}'),
{
    let d = text::decimal(n);
    arithlaws::law_decimal(n);
    arithlaws::law_decimal_reads_back(n as int, 0, usize::MAX as int);
    assert(text::ascii_digit(d[0]));
    reveal_strlit("@");
    assert("@"@[0] == '@');
    assert forall|k: int| 0 <= k < d.len() implies #[trigger] d[k] != '}' by {
        assert(text::ascii_digit(d[k]));
    }
}

/// The positional parameters: `$1`, `$2` and so on are the words behind the
/// name of the command, in order, `$0` is the name of the shell, and those
/// behind the last are empty. `$12` is the twelfth, with braces or without.
pub proof fn law_positional_parameters(
    n: nat,
    rest: Seq<char>,
    sc: arith::Scope,
    status: int,
)
    requires
        n <= usize::MAX,
        pathlaws::inert(rest),
        rest.len() > 0 ==> !text::ascii_digit(rest[0]),
    ensures
        ({
            let v = if n == 0 {
                seq!['r', 's', 'h']
            } else if n <= sc.positional.len() {
                sc.positional[n - 1]
            } else {
                Seq::empty()
            };
            &&& expand::expanded(seq!['$'] + text::decimal(n) + rest, sc, status) == (
                v + rest,
                sc.vars,
            )
            &&& expand::expanded(interpolation::in_braces(text::decimal(n)) + rest, sc, status) == (
                v + rest,
                sc.vars,
            )
        }),
{
    reveal_strlit("rsh");
    assert("rsh"@ =~= seq!['r', 's', 'h']);
    let none = Seq::<char>::empty();
    let d = text::decimal(n);
    let v = arith::positional_value(n as int, sc.positional);
    let param = seq!['$'] + d;
    let s = none + param + rest;
    assert(seq!['$'] + d + rest =~= s);
    assert(s.subrange(1, 1 + d.len() as int) =~= d);
    assert(rest.len() > 0 ==> s[1 + d.len() as int] == rest[0]);
    lemma_digits_at(s, n, sc, status);
    lemma_one_expansion(s, 0, none, v, 1 + d.len() as int, sc, status);
    lemma_around(none, param, rest, v, sc, status);
    assert(none + v + rest =~= v + rest);
    lemma_digits_braced(n, sc);
    lemma_braces_in_text(none, d, rest, v, sc, status);
    assert(none + interpolation::in_braces(d) + rest =~= interpolation::in_braces(d) + rest);
}

/// `$#` is the number of positional parameters, in braces as well; `$@` is all
/// of them with spaces in between, in braces as well.
pub proof fn law_all_parameters(sc: arith::Scope, status: int)
    ensures
        expand::expanded(seq!['$', '#'], sc, status) == (
            text::decimal(sc.positional.len()),
            sc.vars,
        ),
        expand::expanded(interpolation::in_braces(seq!['#']), sc, status) == (
            text::decimal(sc.positional.len()),
            sc.vars,
        ),
        expand::expanded(seq!['$', '@'], sc, status) == (
            text::joined(sc.positional, " "@),
            sc.vars,
        ),
        expand::expanded(interpolation::in_braces(seq!['@']), sc, status) == (
            text::joined(sc.positional, " "@),
            sc.vars,
        ),
{
    let none = Seq::<char>::empty();
    let n = text::decimal(sc.positional.len());
    let all = text::joined(sc.positional, " "@);
    reveal_strlit("@");
    assert("@"@ =~= seq!['@']);
    assert(none + n + none =~= n);
    assert(none + all + none =~= all);
    let a = seq!['$', '#'];
    assert(none + a + none =~= a);
    lemma_one_expansion(a, 0, none, n, 2, sc, status);
    lemma_around(none, a, none, n, sc, status);
    let b = seq!['$', '@'];
    assert(none + b + none =~= b);
    lemma_one_expansion(b, 0, none, all, 2, sc, status);
    lemma_around(none, b, none, all, sc, status);
    let c = interpolation::in_braces(seq!['#']);
    assert(none + c + none =~= c);
    lemma_braces_in_text(none, seq!['#'], none, n, sc, status);
    let d = interpolation::in_braces(seq!['@']);
    assert(none + d + none =~= d);
    lemma_braces_in_text(none, seq!['@'], none, all, sc, status);
}

/// A `$` that nothing follows, or a character that begins no parameter, stands
/// for itself.
pub proof fn law_lone_dollars(front: Seq<char>, rest: Seq<char>, sc: arith::Scope, status: int)
    requires
        pathlaws::inert(front),
        pathlaws::inert(rest),
        rest.len() > 0 ==> !arith::name_char(rest[0]) && !arith::name_start(rest[0]) && rest[0]
            != '{' && rest[0] != '(' && rest[0] != '?' && rest[0] != '@' && rest[0] != '#',
    ensures
        expand::expanded(front + seq!['$'] + rest, sc, status) == (
            front + seq!['$'] + rest,
            sc.vars,
        ),
{
    let at = front.len() as int;
    let s = front + seq!['$'] + rest;
    assert(s[at] == '$');
    assert(rest.len() > 0 ==> s[at + 1] == rest[0]);
    assert(s.subrange(at, at + 1) =~= seq!['$']);
    lemma_one_expansion(s, at, front, seq!['$'], at + 1, sc, status);
    lemma_around(front, seq!['$'], rest, seq!['$'], sc, status);
}

proof fn lemma_quoted_at(c: char, v: Seq<char>, sc: arith::Scope, status: int)
    requires
        c == '@' ==> v == text::joined(sc.positional, " "@),
        c == '#' ==> v == text::decimal(sc.positional.len()),
        text::ascii_digit(c) ==> v == arith::positional_value(
            text::digit_value(c) as int,
            sc.positional,
        ),
        c == '@' || c == '#' || text::ascii_digit(c),
    ensures
        expand::expanded(seq!['$', MARK, c], sc, status) == (expand::protected(v), sc.vars),
{
    let none = Seq::<char>::empty();
    let s = seq!['$', MARK, c];
    assert(s.subrange(2, 3) =~= seq![c]);
    reveal_with_fuel(text::digits_value, 2);
    reveal_with_fuel(arith::digits_end, 2);
    assert(expand::expansion(s, 0, sc, status) == (expand::Expanded {
        text: expand::protected(v),
        next: 3,
        vars: sc.vars,
    }));
    assert(none + expand::protected(v) =~= expand::protected(v));
    lemma_one_expansion(s, 0, none, expand::protected(v), 3, sc, status);
    assert(expand::expanded_from(s, 3, expand::protected(v), sc, status) == (
        expand::protected(v),
        sc.vars,
    ));
}

/// A positional parameter in double quotes is one argument, whatever it holds;
/// so is `$@` there, all the parameters with spaces in between, and `$#`.
pub proof fn law_quoted_parameters(
    c: char,
    v: Seq<char>,
    outputs: Seq<Seq<char>>,
    sc: arith::Scope,
    status: int,
    command: bool,
    paths: Seq<Seq<char>>,
)
    requires
        v.len() > 0,
        c == '@' ==> v == text::joined(sc.positional, " "@),
        c == '#' ==> v == text::decimal(sc.positional.len()),
        '1' <= c && c <= '9' ==> 1 <= c as nat - 48 <= sc.positional.len() && v
            == sc.positional[c as nat - 49],
        c == '@' || c == '#' || ('1' <= c && c <= '9'),
    ensures
        expand::commands_of(seq!['$', MARK, c]).len() == 0,
        expand::resolved(seq!['$', MARK, c], outputs, sc, status).1 == sc.vars,
        expand::plan_words(
            expand::plan_of(
                expand::resolved(seq!['$', MARK, c], outputs, sc, status).0,
                command,
            ),
            paths,
        ) == seq![v],
{
    let s = seq!['$', MARK, c];
    let none = Seq::<char>::empty();
    reveal_with_fuel(expand::commands_from, 3);
    reveal_with_fuel(expand::substituted_from, 3);
    assert(expand::substituted(s, outputs) =~= s);
    lemma_quoted_at(c, v, sc, status);
    quoting::lemma_protected(v);
    let marks = quoting::literal_marks();
    let w = expand::protected(v);
    assert(w == quoting::encoded(v, marks));
    assert(w =~= none + quoting::encoded_from(v, 0, marks));
    quoting::lemma_next(w, none, v, 0, marks);
    assert(w[0] != '~');
    quoting::lemma_marked_plan(v, marks, command, paths);
}

// ---------------------------------------------------------------------------
// Arithmetic.
// ---------------------------------------------------------------------------

/// The operators of arithmetic: a sum, a difference and a product as they are
/// as long as they fit, a quotient that is cut off towards zero, and the
/// remainder that goes with it, which has the sign of the dividend. A result
/// that does not fit, and a division by zero, have no value.
pub proof fn law_operations(x: int, y: int, q: int, r: int)
    ensures
        ({
            let fits = |v: int| -0x8000_0000_0000_0000 <= v <= 0x7fff_ffff_ffff_ffff;
            let op = |c: char| arith::operation(c, Some(x), Some(y));
            &&& op('+') == if fits(x + y) {
                Some(x + y)
            } else {
                None
            }
            &&& op('-') == if fits(x - y) {
                Some(x - y)
            } else {
                None
            }
            &&& op('*') == if fits(x * y) {
                Some(x * y)
            } else {
                None
            }
            &&& y == 0 ==> op('/') is None && op('%') is None
            &&& y != 0 && x == q * y + r && -arith::magnitude(y) < r < arith::magnitude(y) && (r
                != 0 ==> (r < 0) == (x < 0)) ==> {
                &&& op('/') == if fits(q) {
                    Some(q)
                } else {
                    None
                }
                &&& op('%') == if fits(r) {
                    Some(r)
                } else {
                    None
                }
            }
        }),
        forall|c: char, v: Option<int>|
            (#[trigger] arith::operation(c, v, None)) is None && arith::operation(
                c,
                None,
                v,
            ) is None,
{
    if y != 0 && x == q * y + r && -arith::magnitude(y) < r < arith::magnitude(y) && (r != 0 ==> (r
        < 0) == (x < 0)) {
        arith::law_division(x, y);
        let a = arith::quotient(x, y);
        let b = arith::remainder(x, y);
        lemma_remainder_sign(x, y);
        assert((q - a) * y == b - r) by (nonlinear_arith)
            requires
                x == q * y + r,
                x == a * y + b,
        ;
        assert(b == r && q == a) by (nonlinear_arith)
            requires
                y != 0,
                (q - a) * y == b - r,
                y > 0 ==> -y < r < y && -y < b < y,
                y < 0 ==> y < r < -y && y < b < -y,
                r != 0 ==> (r < 0) == (x < 0),
                b != 0 ==> (b < 0) == (x < 0),
        ;
    }
}

proof fn lemma_remainder_sign(x: int, y: int)
    requires
        y != 0,
    ensures
        arith::remainder(x, y) != 0 ==> (arith::remainder(x, y) < 0) == (x < 0),
{
    let m = arith::magnitude(x);
    let n = arith::magnitude(y);
    assert(0 <= m % n) by (nonlinear_arith)
        requires
            n > 0,
    ;
}

/// A name in an expression stands for the number that its value denotes, and
/// for 0 where it denotes none; digits stand for the positional parameter.
pub proof fn law_references(name: Seq<char>, x: int, n: nat, sc: arith::Scope)
    requires
        i64::MIN <= x <= i64::MAX,
        expand::valid_name(name),
        1 <= n <= sc.positional.len(),
        n <= usize::MAX,
    ensures
        sc.vars.value(name) == text::decimal_int(x) ==> arith::named(name, sc) == x,
        sc.vars.value(name).len() == 0 ==> arith::named(name, sc) == 0,
        sc.positional[n - 1] == text::decimal_int(x) ==> arith::named(text::decimal(n), sc) == x,
{
    wordlaws::lemma_name(name);
    arithlaws::law_decimal_reads_back(x, i64::MIN as int, i64::MAX as int);
    arithlaws::law_decimal(n);
    arithlaws::law_decimal_reads_back(n as int, 0, usize::MAX as int);
    let t = text::decimal_int(x);
    if x < 0 {
        arithlaws::law_decimal((-x) as nat);
        assert(t[0] == '-');
        assert(t.last() == text::decimal((-x) as nat).last());
    } else {
        arithlaws::law_decimal(x as nat);
        assert(text::ascii_digit(t[0]));
    }
    assert(text::ascii_digit(t.last()));
    text::lemma_untrimmed(t);
    text::lemma_untrimmed(Seq::empty());
}

/// An expression without a value counts as 0, and any other as its value.
pub proof fn law_arithmetic_text(
    e: arithlaws::Sum,
    gap: Seq<char>,
    sc: arith::Scope,
    status: int,
)
    requires
        e.sound(),
        arithlaws::blank(gap),
    ensures
        ({
            let s = arithlaws::in_dollar_parens(e.written(gap));
            match e.value(sc) {
                Some(v) => expand::expanded(s, sc, status) == (text::decimal_int(v), sc.vars),
                None => expand::expanded(s, sc, status) == (seq!['0'], sc.vars),
            }
        }),
{
    arithlaws::law_arithmetic_expansion(e, gap, sc, status);
    assert(text::decimal(0) =~= seq!['0']);
}

} // verus!
