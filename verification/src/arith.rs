//! Integer arithmetic: the evaluator behind `$(( ... ))`.

use crate::text;
use crate::text::{
    is_alphabetic, is_alphanumeric, is_whitespace, parse_i64, parse_usize, slice_text, to_chars,
    trim,
};
use crate::vars;
use crate::vars::{lookup_var, Vars};
use vstd::prelude::*;

verus! {

/// What names refer to: the variables and the positional parameters.
pub struct Scope {
    pub vars: vars::VarsModel,
    pub positional: Seq<Seq<char>>,
}

/// The scope of variables and positional parameters.
pub open spec fn scope(v: &Vars, positional: &[String]) -> Scope {
    Scope { vars: v.model(), positional: text::texts(positional@) }
}

/// The value of the positional parameter `n`: the shell's name for 0, the
/// empty text where there is no such parameter.
pub open spec fn positional_value(n: int, positional: Seq<Seq<char>>) -> Seq<char> {
    if n == 0 {
        "rsh"@
    } else if 0 < n <= positional.len() {
        positional[n - 1]
    } else {
        Seq::empty()
    }
}

/// The value of a positional parameter.
pub fn positional_param(n: usize, positional: &[String]) -> (r: String)
    ensures
        r@ == positional_value(n as int, text::texts(positional@)),
{
    if n == 0 {
        "rsh".to_owned()
    } else if n <= positional.len() {
        positional[n - 1].clone()
    } else {
        String::new()
    }
}

// ---------------------------------------------------------------------------
// Operations.
// ---------------------------------------------------------------------------

/// The result of an operation, if it fits.
pub open spec fn fitted(v: int) -> Option<int> {
    if i64::MIN <= v <= i64::MAX {
        Some(v)
    } else {
        None
    }
}

/// The magnitude of a number.
pub open spec fn magnitude(v: int) -> int {
    if v < 0 {
        -v
    } else {
        v
    }
}

/// Division by a number other than zero, rounded towards zero.
pub open spec fn quotient(a: int, b: int) -> int {
    if (a < 0) == (b < 0) {
        magnitude(a) / magnitude(b)
    } else {
        -(magnitude(a) / magnitude(b))
    }
}

/// The remainder of that division, with the sign of the dividend.
pub open spec fn remainder(a: int, b: int) -> int {
    if a < 0 {
        -(magnitude(a) % magnitude(b))
    } else {
        magnitude(a) % magnitude(b)
    }
}

/// The result of `a op b` for the operators `+ - * / %`, if there is one: both
/// operands have a value, nothing is divided by zero, and the result fits.
pub open spec fn operation(op: char, a: Option<int>, b: Option<int>) -> Option<int> {
    match (a, b) {
        (Some(x), Some(y)) => if op == '+' {
            fitted(x + y)
        } else if op == '-' {
            fitted(x - y)
        } else if op == '*' {
            fitted(x * y)
        } else if y == 0 {
            None
        } else if op == '/' {
            fitted(quotient(x, y))
        } else {
            fitted(remainder(x, y))
        },
        _ => None,
    }
}

/// A computed number as an integer.
pub open spec fn integer(v: Option<i64>) -> Option<int> {
    match v {
        Some(x) => Some(x as int),
        None => None,
    }
}

/// Dividend, divisor, quotient and remainder fit together, and the remainder
/// is smaller than the divisor.
pub proof fn law_division(a: int, b: int)
    requires
        b != 0,
    ensures
        a == quotient(a, b) * b + remainder(a, b),
        magnitude(remainder(a, b)) < magnitude(b),
{
    let m = magnitude(a);
    let n = magnitude(b);
    let q = m / n;
    assert(m == q * n + m % n) by (nonlinear_arith)
        requires
            n > 0,
            q == m / n,
    ;
    assert(0 <= m % n < n) by (nonlinear_arith)
        requires
            n > 0,
    ;
    assert((-q) * b == -(q * b)) by (nonlinear_arith);
    assert(q * (-b) == -(q * b)) by (nonlinear_arith);
}

fn unsigned(v: i64) -> (r: u64)
    ensures
        r == magnitude(v as int),
{
    if v == i64::MIN {
        9223372036854775808
    } else if v < 0 {
        (-v) as u64
    } else {
        v as u64
    }
}

fn signed(negative: bool, m: u64) -> (r: Option<i64>)
    ensures
        integer(r) == fitted(
            if negative {
                -(m as int)
            } else {
                m as int
            },
        ),
{
    if m <= 9223372036854775807 {
        if negative {
            Some(-(m as i64))
        } else {
            Some(m as i64)
        }
    } else if negative && m == 9223372036854775808 {
        Some(i64::MIN)
    } else {
        None
    }
}

fn apply(op: char, a: Option<i64>, b: Option<i64>) -> (r: Option<i64>)
    ensures
        integer(r) == operation(op, integer(a), integer(b)),
{
    match (a, b) {
        (Some(x), Some(y)) => {
            if op == '+' {
                x.checked_add(y)
            } else if op == '-' {
                x.checked_sub(y)
            } else if op == '*' {
                x.checked_mul(y)
            } else if y == 0 {
                None
            } else if op == '/' {
                signed((x < 0) != (y < 0), unsigned(x) / unsigned(y))
            } else {
                signed(x < 0, unsigned(x) % unsigned(y))
            }
        },
        _ => None,
    }
}

// ---------------------------------------------------------------------------
// The grammar.
// ---------------------------------------------------------------------------

/// The first position at or after `i` that holds no whitespace.
pub open spec fn skip_space(s: Seq<char>, i: int) -> int
    decreases s.len() - i,
{
    if 0 <= i < s.len() && text::whitespace(s[i]) {
        skip_space(s, i + 1)
    } else {
        i
    }
}

/// A character that a name goes on with.
pub open spec fn name_char(c: char) -> bool {
    text::alphanumeric(c) || c == '_'
}

/// A character that a name begins with.
pub open spec fn name_start(c: char) -> bool {
    text::alphabetic(c) || c == '_'
}

/// The end of the run of name characters from `i` on.
pub open spec fn name_end(s: Seq<char>, i: int) -> int
    decreases s.len() - i,
{
    if 0 <= i < s.len() && name_char(s[i]) {
        name_end(s, i + 1)
    } else {
        i
    }
}

/// The end of the run of digits from `i` on.
pub open spec fn digits_end(s: Seq<char>, i: int) -> int
    decreases s.len() - i,
{
    if 0 <= i < s.len() && text::ascii_digit(s[i]) {
        digits_end(s, i + 1)
    } else {
        i
    }
}

/// Runs end at or behind their start and within the text.
pub proof fn lemma_runs(s: Seq<char>, i: int)
    requires
        0 <= i <= s.len(),
    ensures
        i <= skip_space(s, i) <= s.len(),
        i <= name_end(s, i) <= s.len(),
        i <= digits_end(s, i) <= s.len(),
    decreases s.len() - i,
{
    if i < s.len() {
        lemma_runs(s, i + 1);
    }
}

/// The position behind `c` if it stands at `i`, else `i`.
pub open spec fn past(s: Seq<char>, i: int, c: char) -> int {
    if 0 <= i < s.len() && s[i] == c {
        i + 1
    } else {
        i
    }
}

/// The number that a text denotes, 0 if it denotes none.
pub open spec fn number(t: Seq<char>) -> int {
    match text::parse_int(text::trimmed(t), i64::MIN as int, i64::MAX as int) {
        Some(v) => v,
        None => 0,
    }
}

/// The number that a name refers to: 0 where it refers to none.
pub open spec fn named(name: Seq<char>, sc: Scope) -> int {
    match text::parse_int(name, 0, usize::MAX as int) {
        Some(n) => number(positional_value(n, sc.positional)),
        None => number(sc.vars.value(name)),
    }
}

/// The number that a literal denotes, if it is in range.
pub open spec fn constant(digits: Seq<char>) -> Option<int> {
    text::parse_int(digits, i64::MIN as int, i64::MAX as int)
}

/// `k` is a position at or behind `i`. Every part ends at such a position, so
/// the functions below never take their other branch.
pub open spec fn onward(s: Seq<char>, i: int, k: int) -> bool {
    i <= k <= s.len()
}

/// A sum at `i`: its value, if it has one, and the position behind it.
pub open spec fn expr_at(s: Seq<char>, i: int, sc: Scope) -> (Option<int>, int)
    decreases s.len() - i, 4nat,
{
    let (v, k) = term_at(s, i, sc);
    if onward(s, i, k) {
        expr_rest(s, k, v, sc)
    } else {
        arbitrary()
    }
}

/// A sum whose part before `i` has the value `v`.
pub open spec fn expr_rest(s: Seq<char>, i: int, v: Option<int>, sc: Scope) -> (Option<int>, int)
    decreases s.len() - i, 3nat,
{
    let j = skip_space(s, i);
    if i <= j < s.len() && (s[j] == '+' || s[j] == '-') {
        let (w, k) = term_at(s, j + 1, sc);
        if onward(s, j + 1, k) {
            expr_rest(s, k, operation(s[j], v, w), sc)
        } else {
            arbitrary()
        }
    } else {
        (v, j)
    }
}

/// A product at `i`.
pub open spec fn term_at(s: Seq<char>, i: int, sc: Scope) -> (Option<int>, int)
    decreases s.len() - i, 2nat,
{
    let (v, k) = factor_at(s, i, sc);
    if onward(s, i, k) {
        term_rest(s, k, v, sc)
    } else {
        arbitrary()
    }
}

/// A product whose part before `i` has the value `v`.
pub open spec fn term_rest(s: Seq<char>, i: int, v: Option<int>, sc: Scope) -> (Option<int>, int)
    decreases s.len() - i, 1nat,
{
    let j = skip_space(s, i);
    if i <= j < s.len() && (s[j] == '*' || s[j] == '/' || s[j] == '%') {
        let (w, k) = factor_at(s, j + 1, sc);
        if onward(s, j + 1, k) {
            term_rest(s, k, operation(s[j], v, w), sc)
        } else {
            arbitrary()
        }
    } else {
        (v, j)
    }
}

/// The value of a part, provided that it is well formed.
pub open spec fn provided(formed: bool, v: Option<int>) -> Option<int> {
    if formed {
        v
    } else {
        None
    }
}

/// An operand at `i`: a sign and an operand, a sum in parentheses, a
/// reference, a literal or a name. Anything else has no value, and nothing is
/// consumed; nor has a parenthesis or a brace that is not closed, or a `$`
/// without a name.
pub open spec fn factor_at(s: Seq<char>, i: int, sc: Scope) -> (Option<int>, int)
    decreases s.len() - i, 0nat,
{
    let j = skip_space(s, i);
    if !(i <= j < s.len()) {
        (None, j)
    } else if s[j] == '-' {
        let (v, k) = factor_at(s, j + 1, sc);
        (operation('-', Some(0), v), k)
    } else if s[j] == '+' {
        factor_at(s, j + 1, sc)
    } else if s[j] == '(' {
        let (v, k) = expr_at(s, j + 1, sc);
        let end = skip_space(s, k);
        (provided(past(s, end, ')') == end + 1, v), past(s, end, ')'))
    } else if s[j] == '$' {
        let from = past(s, j + 1, '{');
        let to = name_end(s, from);
        let next = if from == j + 1 {
            to
        } else {
            past(s, to, '}')
        };
        (
            provided(from < to && (from == j + 1 || next == to + 1), Some(
                named(s.subrange(from, to), sc),
            )),
            next,
        )
    } else if text::ascii_digit(s[j]) {
        let to = digits_end(s, j);
        (constant(s.subrange(j, to)), to)
    } else if name_start(s[j]) {
        let to = name_end(s, j);
        (Some(named(s.subrange(j, to), sc)), to)
    } else {
        (None, j)
    }
}

/// An operand ends at or behind its start and within the text.
pub proof fn lemma_factor_onward(s: Seq<char>, i: int, sc: Scope)
    requires
        0 <= i <= s.len(),
    ensures
        onward(s, i, factor_at(s, i, sc).1),
    decreases s.len() - i, 0nat,
{
    lemma_runs(s, i);
    let j = skip_space(s, i);
    if j < s.len() {
        lemma_runs(s, j);
        if s[j] == '-' || s[j] == '+' {
            lemma_factor_onward(s, j + 1, sc);
        } else if s[j] == '(' {
            lemma_expr_onward(s, j + 1, sc);
            lemma_runs(s, expr_at(s, j + 1, sc).1);
        } else if s[j] == '$' {
            lemma_runs(s, past(s, j + 1, '{'));
        }
    }
}

proof fn lemma_term_rest_onward(s: Seq<char>, i: int, v: Option<int>, sc: Scope)
    requires
        0 <= i <= s.len(),
    ensures
        onward(s, i, term_rest(s, i, v, sc).1),
    decreases s.len() - i, 1nat,
{
    lemma_runs(s, i);
    let j = skip_space(s, i);
    if j < s.len() && (s[j] == '*' || s[j] == '/' || s[j] == '%') {
        lemma_factor_onward(s, j + 1, sc);
        let (w, k) = factor_at(s, j + 1, sc);
        lemma_term_rest_onward(s, k, operation(s[j], v, w), sc);
    }
}

/// So does a product.
pub proof fn lemma_term_onward(s: Seq<char>, i: int, sc: Scope)
    requires
        0 <= i <= s.len(),
    ensures
        onward(s, i, term_at(s, i, sc).1),
    decreases s.len() - i, 2nat,
{
    lemma_factor_onward(s, i, sc);
    let (v, k) = factor_at(s, i, sc);
    lemma_term_rest_onward(s, k, v, sc);
}

proof fn lemma_expr_rest_onward(s: Seq<char>, i: int, v: Option<int>, sc: Scope)
    requires
        0 <= i <= s.len(),
    ensures
        onward(s, i, expr_rest(s, i, v, sc).1),
    decreases s.len() - i, 3nat,
{
    lemma_runs(s, i);
    let j = skip_space(s, i);
    if j < s.len() && (s[j] == '+' || s[j] == '-') {
        lemma_term_onward(s, j + 1, sc);
        let (w, k) = term_at(s, j + 1, sc);
        lemma_expr_rest_onward(s, k, operation(s[j], v, w), sc);
    }
}

/// So does a sum.
pub proof fn lemma_expr_onward(s: Seq<char>, i: int, sc: Scope)
    requires
        0 <= i <= s.len(),
    ensures
        onward(s, i, expr_at(s, i, sc).1),
    decreases s.len() - i, 4nat,
{
    lemma_term_onward(s, i, sc);
    let (v, k) = term_at(s, i, sc);
    lemma_expr_rest_onward(s, k, v, sc);
}

/// The value of an arithmetic expression that is all of a text, if it has one.
pub open spec fn evaluated(s: Seq<char>, sc: Scope) -> Option<int> {
    let (v, k) = expr_at(s, 0, sc);
    provided(k == s.len(), v)
}

/// A value, or 0 for want of one.
pub open spec fn or_zero(v: Option<int>) -> int {
    match v {
        Some(x) => x,
        None => 0,
    }
}

/// The number that an arithmetic expression stands for: 0 for the whole of it
/// on any problem with one of its parts.
pub open spec fn arithmetic(s: Seq<char>, sc: Scope) -> int {
    or_zero(evaluated(s, sc))
}

// ---------------------------------------------------------------------------
// The evaluator.
// ---------------------------------------------------------------------------

/// The first position at or after `from` that holds no whitespace.
pub fn after_space(chars: &[char], from: usize) -> (r: usize)
    requires
        from <= chars@.len(),
    ensures
        r == skip_space(chars@, from as int),
        from <= r <= chars@.len(),
{
    let mut i: usize = from;
    while i < chars.len() && is_whitespace(chars[i])
        invariant
            from <= i <= chars@.len(),
            skip_space(chars@, from as int) == skip_space(chars@, i as int),
        decreases chars@.len() - i,
    {
        i += 1;
    }
    i
}

/// The end of the run of name characters from `from` on.
pub fn after_name(chars: &[char], from: usize) -> (r: usize)
    requires
        from <= chars@.len(),
    ensures
        r == name_end(chars@, from as int),
        from <= r <= chars@.len(),
{
    let mut i: usize = from;
    while i < chars.len() && (is_alphanumeric(chars[i]) || chars[i] == '_')
        invariant
            from <= i <= chars@.len(),
            name_end(chars@, from as int) == name_end(chars@, i as int),
        decreases chars@.len() - i,
    {
        i += 1;
    }
    i
}

/// The end of the run of digits from `from` on.
pub fn after_digits(chars: &[char], from: usize) -> (r: usize)
    requires
        from <= chars@.len(),
    ensures
        r == digits_end(chars@, from as int),
        from <= r <= chars@.len(),
{
    let mut i: usize = from;
    while i < chars.len() && chars[i] >= '0' && chars[i] <= '9'
        invariant
            from <= i <= chars@.len(),
            digits_end(chars@, from as int) == digits_end(chars@, i as int),
        decreases chars@.len() - i,
    {
        i += 1;
    }
    i
}

fn after_char(chars: &[char], i: usize, c: char) -> (r: usize)
    requires
        i <= chars@.len(),
    ensures
        r == past(chars@, i as int, c),
        i <= r <= chars@.len(),
{
    if i < chars.len() && chars[i] == c {
        i + 1
    } else {
        i
    }
}

fn number_of(t: &str) -> (r: i64)
    ensures
        r == number(t@),
{
    match parse_i64(trim(t).as_str()) {
        Some(v) => v,
        None => 0,
    }
}

/// The number that a name refers to: a positional parameter for a number, a
/// variable for any other name.
fn raw_value(name: &str, vars: &Vars, positional: &[String]) -> (r: i64)
    ensures
        r == named(name@, scope(vars, positional)),
{
    match parse_usize(name) {
        Some(n) => number_of(positional_param(n, positional).as_str()),
        None => number_of(lookup_var(name, vars).as_str()),
    }
}

fn expr(chars: &[char], i: usize, vars: &Vars, positional: &[String]) -> (r: (
    Option<i64>,
    usize,
))
    requires
        i <= chars@.len(),
    ensures
        (integer(r.0), r.1 as int) == expr_at(chars@, i as int, scope(vars, positional)),
        i <= r.1 <= chars@.len(),
    decreases chars@.len() - i, 4nat,
{
    let ghost sc = scope(vars, positional);
    let n: usize = chars.len();
    let (first, after) = term(chars, i, vars, positional);
    let mut v: Option<i64> = first;
    let mut k: usize = after_space(chars, after);
    proof {
        lemma_space_again(chars@, after as int, integer(v), sc);
    }
    while k < n && (chars[k] == '+' || chars[k] == '-')
        invariant
            n == chars@.len(),
            i <= k <= n,
            sc == scope(vars, positional),
            k == skip_space(chars@, k as int),
            expr_at(chars@, i as int, sc) == expr_rest(chars@, k as int, integer(v), sc),
        decreases n - k,
    {
        let op = chars[k];
        let (w, next) = term(chars, k + 1, vars, positional);
        v = apply(op, v, w);
        k = after_space(chars, next);
        proof {
            lemma_space_again(chars@, next as int, integer(v), sc);
        }
    }
    (v, k)
}

fn term(chars: &[char], i: usize, vars: &Vars, positional: &[String]) -> (r: (
    Option<i64>,
    usize,
))
    requires
        i <= chars@.len(),
    ensures
        (integer(r.0), r.1 as int) == term_at(chars@, i as int, scope(vars, positional)),
        i <= r.1 <= chars@.len(),
    decreases chars@.len() - i, 2nat,
{
    let ghost sc = scope(vars, positional);
    let n: usize = chars.len();
    let (first, after) = factor(chars, i, vars, positional);
    let mut v: Option<i64> = first;
    let mut k: usize = after_space(chars, after);
    proof {
        lemma_space_again(chars@, after as int, integer(v), sc);
    }
    while k < n && (chars[k] == '*' || chars[k] == '/' || chars[k] == '%')
        invariant
            n == chars@.len(),
            i <= k <= n,
            sc == scope(vars, positional),
            k == skip_space(chars@, k as int),
            term_at(chars@, i as int, sc) == term_rest(chars@, k as int, integer(v), sc),
        decreases n - k,
    {
        let op = chars[k];
        let (w, next) = factor(chars, k + 1, vars, positional);
        v = apply(op, v, w);
        k = after_space(chars, next);
        proof {
            lemma_space_again(chars@, next as int, integer(v), sc);
        }
    }
    (v, k)
}

/// Whitespace in front of the rest of a sum or a product makes no difference.
proof fn lemma_space_again(s: Seq<char>, i: int, v: Option<int>, sc: Scope)
    requires
        0 <= i <= s.len(),
    ensures
        skip_space(s, skip_space(s, i)) == skip_space(s, i),
        expr_rest(s, i, v, sc) == expr_rest(s, skip_space(s, i), v, sc),
        term_rest(s, i, v, sc) == term_rest(s, skip_space(s, i), v, sc),
    decreases s.len() - i,
{
    lemma_runs(s, i);
    if i < s.len() && text::whitespace(s[i]) {
        lemma_space_again(s, i + 1, v, sc);
        lemma_runs(s, i + 1);
    }
}

fn factor(chars: &[char], i: usize, vars: &Vars, positional: &[String]) -> (r: (
    Option<i64>,
    usize,
))
    requires
        i <= chars@.len(),
    ensures
        (integer(r.0), r.1 as int) == factor_at(chars@, i as int, scope(vars, positional)),
        i <= r.1 <= chars@.len(),
    decreases chars@.len() - i, 0nat,
{
    let n: usize = chars.len();
    let j: usize = after_space(chars, i);
    if j >= n {
        return (None, j);
    }
    let c = chars[j];
    if c == '-' {
        let (v, k) = factor(chars, j + 1, vars, positional);
        (apply('-', Some(0), v), k)
    } else if c == '+' {
        factor(chars, j + 1, vars, positional)
    } else if c == '(' {
        let (v, k) = expr(chars, j + 1, vars, positional);
        let end: usize = after_space(chars, k);
        if end < n && chars[end] == ')' {
            (v, end + 1)
        } else {
            (None, end)
        }
    } else if c == '$' {
        let from: usize = after_char(chars, j + 1, '{');
        let to: usize = after_name(chars, from);
        let braced = from > j + 1;
        let next: usize = if braced {
            after_char(chars, to, '}')
        } else {
            to
        };
        if from < to && (!braced || next > to) {
            let name = slice_text(chars, from, to);
            (Some(raw_value(name.as_str(), vars, positional)), next)
        } else {
            (None, next)
        }
    } else if c >= '0' && c <= '9' {
        let to: usize = after_digits(chars, j);
        let digits = slice_text(chars, j, to);
        (parse_i64(digits.as_str()), to)
    } else if is_alphabetic(c) || c == '_' {
        let to: usize = after_name(chars, j);
        let name = slice_text(chars, j, to);
        (Some(raw_value(name.as_str(), vars, positional)), to)
    } else {
        (None, j)
    }
}

/// Evaluates an integer expression: `+ - * / %`, parentheses, signs, names,
/// and `$name` or `$N` references. A name that refers to no number counts as
/// 0; on any other problem, in reading or in computing, the whole expression
/// is 0.
pub fn eval_arithmetic(input: &str, vars: &Vars, positional: &[String]) -> (r: i64)
    ensures
        r == arithmetic(input@, scope(vars, positional)),
{
    let chars = to_chars(input);
    match expr(&chars, 0, vars, positional) {
        (Some(v), k) => if k == chars.len() {
            v
        } else {
            0
        },
        (None, _) => 0,
    }
}

} // verus!
