//! Laws of arithmetic: an expression, written out, evaluates to its value.

use crate::arith;
use crate::expand;
use crate::quoting;
use crate::text;
use crate::tokenizer::MARK;
use vstd::prelude::*;

verus! {

/// A sum: a product, or a sum, `+` or `-`, and a product.
pub enum Sum {
    One(Product),
    More { left: Box<Sum>, minus: bool, right: Product },
}

/// A product: an operand, or a product, `*`, `/` or `%`, and an operand.
pub enum Product {
    One(Operand),
    More { left: Box<Product>, op: Multiplication, right: Operand },
}

/// The operators of a product.
pub enum Multiplication {
    Times,
    Over,
    Modulo,
}

/// An operand: a number, a reference to a variable or a parameter, an operand
/// with a sign, or a sum in parentheses.
pub enum Operand {
    Number(nat),
    Reference { name: Seq<char>, form: Form },
    Signed { minus: bool, operand: Box<Operand> },
    Group(Box<Sum>),
}

/// The forms of a reference: `n`, `$n` and `${n}`.
pub enum Form {
    Bare,
    Dollar,
    Braces,
}

impl Multiplication {
    /// The operator as it is written.
    pub open spec fn symbol(self) -> char {
        match self {
            Multiplication::Times => '*',
            Multiplication::Over => '/',
            Multiplication::Modulo => '%',
        }
    }
}

/// The operator of a sum as it is written.
pub open spec fn sign(minus: bool) -> char {
    if minus {
        '-'
    } else {
        '+'
    }
}

impl Sum {
    /// The sum, written with `gap` around every operator.
    pub open spec fn written(self, gap: Seq<char>) -> Seq<char>
        decreases self,
    {
        match self {
            Sum::One(p) => p.written(gap),
            Sum::More { left, minus, right } => left.written(gap) + gap + seq![sign(minus)] + gap
                + right.written(gap),
        }
    }

    /// The references of the sum are well formed.
    pub open spec fn sound(self) -> bool
        decreases self,
    {
        match self {
            Sum::One(p) => p.sound(),
            Sum::More { left, minus: _, right } => left.sound() && right.sound(),
        }
    }

    /// The value of the sum, if all its parts have one: operators of the same
    /// rank go from left to right.
    pub open spec fn value(self, sc: arith::Scope) -> Option<int>
        decreases self,
    {
        match self {
            Sum::One(p) => p.value(sc),
            Sum::More { left, minus, right } => arith::operation(
                sign(minus),
                left.value(sc),
                right.value(sc),
            ),
        }
    }
}

impl Product {
    /// The product, written with `gap` around every operator.
    pub open spec fn written(self, gap: Seq<char>) -> Seq<char>
        decreases self,
    {
        match self {
            Product::One(f) => f.written(gap),
            Product::More { left, op, right } => left.written(gap) + gap + seq![op.symbol()] + gap
                + right.written(gap),
        }
    }

    /// The references of the product are well formed.
    pub open spec fn sound(self) -> bool
        decreases self,
    {
        match self {
            Product::One(f) => f.sound(),
            Product::More { left, op: _, right } => left.sound() && right.sound(),
        }
    }

    /// The value of the product, if all its parts have one.
    pub open spec fn value(self, sc: arith::Scope) -> Option<int>
        decreases self,
    {
        match self {
            Product::One(f) => f.value(sc),
            Product::More { left, op, right } => arith::operation(
                op.symbol(),
                left.value(sc),
                right.value(sc),
            ),
        }
    }
}

impl Operand {
    /// The operand as it is written.
    pub open spec fn written(self, gap: Seq<char>) -> Seq<char>
        decreases self,
    {
        match self {
            Operand::Number(n) => text::decimal(n),
            Operand::Reference { name, form } => referred(name, form),
            Operand::Signed { minus, operand } => seq![sign(minus)] + operand.written(gap),
            Operand::Group(e) => seq!['('] + e.written(gap) + seq![')'],
        }
    }

    /// The references of the operand are well formed: they are made of name
    /// characters, and a bare one begins like a name.
    pub open spec fn sound(self) -> bool
        decreases self,
    {
        match self {
            Operand::Number(n) => true,
            Operand::Reference { name, form } => {
                &&& name.len() > 0
                &&& form is Bare ==> arith::name_start(name[0])
                &&& forall|k: int|
                    0 <= k < name.len() ==> arith::name_char(#[trigger] name[k])
                        && !text::whitespace(name[k])
            },
            Operand::Signed { minus: _, operand } => operand.sound(),
            Operand::Group(e) => e.sound(),
        }
    }

    /// The value of the operand: none for a number that does not fit, and 0 for
    /// a reference to what is no number.
    pub open spec fn value(self, sc: arith::Scope) -> Option<int>
        decreases self,
    {
        match self {
            Operand::Number(n) => arith::fitted(n as int),
            Operand::Reference { name, form: _ } => Some(arith::named(name, sc)),
            Operand::Signed { minus, operand } => if minus {
                arith::operation('-', Some(0), operand.value(sc))
            } else {
                operand.value(sc)
            },
            Operand::Group(e) => e.value(sc),
        }
    }
}

/// A reference as it is written.
pub open spec fn referred(name: Seq<char>, form: Form) -> Seq<char> {
    match form {
        Form::Bare => name,
        Form::Dollar => seq!['$'] + name,
        Form::Braces => seq!['$', '{'] + name + seq!['}'],
    }
}

/// Nothing but whitespace, which is no part of a name.
pub open spec fn blank(gap: Seq<char>) -> bool {
    forall|k: int|
        0 <= k < gap.len() ==> text::whitespace(#[trigger] gap[k]) && !arith::name_char(gap[k])
}

/// The text `t` stands in `s` at `i`.
pub open spec fn stands_at(s: Seq<char>, i: int, t: Seq<char>) -> bool {
    0 <= i && i + t.len() <= s.len() && s.subrange(i, i + t.len()) == t
}

proof fn lemma_stands_split(s: Seq<char>, i: int, a: Seq<char>, b: Seq<char>)
    requires
        stands_at(s, i, a + b),
    ensures
        stands_at(s, i, a),
        stands_at(s, i + a.len(), b),
{
    assert(s.subrange(i, i + a.len()) =~= (a + b).take(a.len() as int));
    assert((a + b).take(a.len() as int) =~= a);
    assert(s.subrange(i + a.len(), i + a.len() + b.len()) =~= (a + b).skip(a.len() as int));
    assert((a + b).skip(a.len() as int) =~= b);
}

proof fn lemma_char_at(s: Seq<char>, i: int, t: Seq<char>, k: int)
    requires
        stands_at(s, i, t),
        0 <= k < t.len(),
    ensures
        s[i + k] == t[k],
{
    assert(s.subrange(i, i + t.len())[k] == s[i + k]);
}

/// Blanks are skipped.
proof fn lemma_skip_gap(s: Seq<char>, i: int, gap: Seq<char>, k: int)
    requires
        blank(gap),
        stands_at(s, i, gap),
        0 <= k <= gap.len(),
    ensures
        arith::skip_space(s, i + k) == arith::skip_space(s, i + gap.len()),
    decreases gap.len() - k,
{
    if k < gap.len() {
        lemma_char_at(s, i, gap, k);
        lemma_skip_gap(s, i, gap, k + 1);
    }
}

// ---------------------------------------------------------------------------
// Numbers.
// ---------------------------------------------------------------------------

/// Decimal notation is made of digits, and denotes the number.
pub proof fn law_decimal(n: nat)
    ensures
        text::decimal(n).len() > 0,
        forall|k: int| 0 <= k < text::decimal(n).len() ==> text::ascii_digit(#[trigger] text::decimal(n)[k]),
        text::digits_value(text::decimal(n)) == Some(n),
    decreases n,
{
    if n >= 10 {
        law_decimal(n / 10);
        let d = text::decimal(n);
        assert(d.drop_last() =~= text::decimal(n / 10));
        assert(d.last() == text::digit_char(n % 10));
        assert forall|k: int| 0 <= k < d.len() implies text::ascii_digit(#[trigger] d[k]) by {
            if k < d.len() - 1 {
                assert(d[k] == text::decimal(n / 10)[k]);
            }
        }
    }
}

/// A number, written in decimal, reads back, where it is in range.
pub proof fn law_decimal_reads_back(n: int, lo: int, hi: int)
    requires
        lo <= n <= hi,
        lo <= 0 <= hi,
    ensures
        text::parse_int(text::decimal_int(n), lo, hi) == Some(n),
{
    if n < 0 {
        law_decimal((-n) as nat);
        let s = text::decimal_int(n);
        assert(s[0] == '-');
        assert(s.skip(1) =~= text::decimal((-n) as nat));
    } else {
        law_decimal(n as nat);
        assert(text::ascii_digit(text::decimal(n as nat)[0]));
    }
}

proof fn lemma_digits_end(s: Seq<char>, i: int, d: Seq<char>, k: int)
    requires
        stands_at(s, i, d),
        forall|k: int| 0 <= k < d.len() ==> text::ascii_digit(#[trigger] d[k]),
        0 <= k <= d.len(),
        i + d.len() == s.len() || !text::ascii_digit(s[i + d.len()]),
    ensures
        arith::digits_end(s, i + k) == i + d.len(),
    decreases d.len() - k,
{
    if k < d.len() {
        lemma_char_at(s, i, d, k);
        lemma_digits_end(s, i, d, k + 1);
    }
}

// ---------------------------------------------------------------------------
// Expressions.
// ---------------------------------------------------------------------------

/// What stands at `i`, blanks aside, is not an operator of a product.
pub open spec fn product_ends(s: Seq<char>, i: int) -> bool {
    let j = arith::skip_space(s, i);
    j >= s.len() || (s[j] != '*' && s[j] != '/' && s[j] != '%')
}

/// Neither a name character nor a brace stands at `i`.
pub open spec fn run_stops(s: Seq<char>, i: int) -> bool {
    i >= s.len() || (!arith::name_char(s[i]) && s[i] != '}')
}

/// Written operands do not begin with whitespace.
proof fn lemma_operand_begins(f: Operand, gap: Seq<char>)
    requires
        f.sound(),
    ensures
        f.written(gap).len() > 0,
        !text::whitespace(f.written(gap)[0]),
    decreases f,
{
    match f {
        Operand::Number(n) => {
            law_decimal(n);
            assert(text::ascii_digit(text::decimal(n)[0]));
        },
        Operand::Reference { name, form } => {
            assert(arith::name_char(name[0]));
        },
        _ => {},
    }
}

proof fn lemma_product_begins(p: Product, gap: Seq<char>)
    requires
        p.sound(),
    ensures
        p.written(gap).len() > 0,
        !text::whitespace(p.written(gap)[0]),
    decreases p,
{
    match p {
        Product::One(f) => {
            lemma_operand_begins(f, gap);
        },
        Product::More { left, op, right } => {
            lemma_product_begins(*left, gap);
            assert(p.written(gap)[0] == left.written(gap)[0]);
        },
    }
}

proof fn lemma_sum_begins(e: Sum, gap: Seq<char>)
    requires
        e.sound(),
    ensures
        e.written(gap).len() > 0,
        !text::whitespace(e.written(gap)[0]),
    decreases e,
{
    match e {
        Sum::One(p) => {
            lemma_product_begins(p, gap);
        },
        Sum::More { left, minus, right } => {
            lemma_sum_begins(*left, gap);
            assert(e.written(gap)[0] == left.written(gap)[0]);
        },
    }
}

/// What follows a written part, where an operator and more come next.
proof fn lemma_operator_next(
    s: Seq<char>,
    i: int,
    left: Seq<char>,
    gap: Seq<char>,
    op: char,
    right: Seq<char>,
)
    requires
        blank(gap),
        stands_at(s, i, left + gap + seq![op] + gap + right),
        !text::whitespace(op),
        !arith::name_char(op) && op != '}',
        right.len() > 0,
        !text::whitespace(right[0]),
    ensures
        stands_at(s, i, left),
        arith::skip_space(s, i + left.len()) == i + left.len() + gap.len(),
        s[i + left.len() + gap.len()] == op,
        run_stops(s, i + left.len() as int),
        stands_at(s, i + left.len() + gap.len() + 1, gap),
        arith::skip_space(s, i + left.len() + gap.len() + 1) == i + left.len() + 2 * gap.len() + 1,
        stands_at(s, i + left.len() + 2 * gap.len() + 1, right),
        i + left.len() + gap.len() + 1 <= s.len(),
{
    let a = left + gap + seq![op] + gap;
    lemma_stands_split(s, i, a, right);
    lemma_stands_split(s, i, left + gap + seq![op], gap);
    lemma_stands_split(s, i, left + gap, seq![op]);
    lemma_stands_split(s, i, left, gap);
    let k = i + left.len();
    lemma_char_at(s, k + gap.len(), seq![op], 0);
    lemma_skip_gap(s, k, gap, 0);
    lemma_char_at(s, i + a.len(), right, 0);
    lemma_skip_gap(s, k + gap.len() + 1, gap, 0);
    if gap.len() > 0 {
        lemma_char_at(s, k, gap, 0);
        assert(text::whitespace(gap[0]));
    }
}

proof fn lemma_name_end(s: Seq<char>, i: int, name: Seq<char>, k: int)
    requires
        stands_at(s, i, name),
        forall|k: int| 0 <= k < name.len() ==> arith::name_char(#[trigger] name[k]),
        0 <= k <= name.len(),
        i + name.len() == s.len() || !arith::name_char(s[i + name.len()]),
    ensures
        arith::name_end(s, i + k) == i + name.len(),
    decreases name.len() - k,
{
    if k < name.len() {
        lemma_char_at(s, i, name, k);
        lemma_name_end(s, i, name, k + 1);
    }
}

/// A reference reads as far as it is written.
proof fn lemma_reference(s: Seq<char>, i: int, name: Seq<char>, form: Form, sc: arith::Scope)
    requires
        (Operand::Reference { name, form }).sound(),
        stands_at(s, i, referred(name, form)),
        run_stops(s, i + referred(name, form).len()),
    ensures
        arith::factor_at(s, i, sc) == (
            Some(arith::named(name, sc)),
            i + referred(name, form).len(),
        ),
{
    let w = referred(name, form);
    assert(arith::name_char(name[0]) && !text::whitespace(name[0]));
    lemma_char_at(s, i, w, 0);
    assert(arith::skip_space(s, i) == i);
    match form {
        Form::Bare => {
            lemma_name_end(s, i, name, 0);
            assert(arith::name_start(s[i]) && !text::ascii_digit(s[i]));
            assert(s.subrange(i, i + name.len()) == name);
        },
        Form::Dollar => {
            lemma_stands_split(s, i, seq!['$'], name);
            lemma_char_at(s, i + 1, name, 0);
            lemma_name_end(s, i + 1, name, 0);
            assert(s.subrange(i + 1, i + 1 + name.len()) == name);
        },
        Form::Braces => {
            lemma_stands_split(s, i, seq!['$', '{'] + name, seq!['}']);
            lemma_stands_split(s, i, seq!['$', '{'], name);
            lemma_char_at(s, i, seq!['$', '{'], 1);
            lemma_char_at(s, i + 2 + name.len(), seq!['}'], 0);
            lemma_name_end(s, i + 2, name, 0);
        },
    }
}

proof fn lemma_operand(s: Seq<char>, i: int, f: Operand, gap: Seq<char>, sc: arith::Scope)
    requires
        f.sound(),
        blank(gap),
        stands_at(s, i, f.written(gap)),
        run_stops(s, i + f.written(gap).len()),
    ensures
        arith::factor_at(s, i, sc) == (f.value(sc), i + f.written(gap).len()),
    decreases f,
{
    lemma_operand_begins(f, gap);
    lemma_char_at(s, i, f.written(gap), 0);
    match f {
        Operand::Number(n) => {
            law_decimal(n);
            let d = text::decimal(n);
            assert(text::ascii_digit(d[0]));
            lemma_digits_end(s, i, d, 0);
            assert(d[0] != '-' && d[0] != '+');
        },
        Operand::Reference { name, form } => {
            lemma_reference(s, i, name, form, sc);
        },
        Operand::Signed { minus, operand } => {
            lemma_stands_split(s, i, seq![sign(minus)], operand.written(gap));
            lemma_operand(s, i + 1, *operand, gap, sc);
        },
        Operand::Group(e) => {
            lemma_stands_split(s, i, seq!['('] + e.written(gap), seq![')']);
            lemma_stands_split(s, i, seq!['('], e.written(gap));
            let k = i + 1 + e.written(gap).len();
            lemma_char_at(s, k, seq![')'], 0);
            lemma_sum(s, i + 1, *e, gap, sc);
            assert(arith::skip_space(s, k) == k);
        },
    }
}

/// A product reads as far as it is written, and goes on from there with its
/// value.
proof fn lemma_product(s: Seq<char>, i: int, p: Product, gap: Seq<char>, sc: arith::Scope)
    requires
        p.sound(),
        blank(gap),
        stands_at(s, i, p.written(gap)),
        run_stops(s, i + p.written(gap).len()),
    ensures
        arith::term_at(s, i, sc) == arith::term_rest(
            s,
            i + p.written(gap).len(),
            p.value(sc),
            sc,
        ),
    decreases p,
{
    match p {
        Product::One(f) => {
            lemma_operand(s, i, f, gap, sc);
        },
        Product::More { left, op, right } => {
            lemma_operand_begins(right, gap);
            lemma_operator_next(
                s,
                i,
                left.written(gap),
                gap,
                op.symbol(),
                right.written(gap),
            );
            lemma_product(s, i, *left, gap, sc);
            let k = i + left.written(gap).len();
            let from = k + 2 * gap.len() + 1;
            lemma_operand(s, from, right, gap, sc);
            lemma_factor_blank(s, k + gap.len() + 1, sc);
            assert(from + right.written(gap).len() == i + p.written(gap).len());
        },
    }
}

/// Blanks in front of an operand make no difference.
proof fn lemma_factor_blank(s: Seq<char>, i: int, sc: arith::Scope)
    requires
        0 <= i <= s.len(),
    ensures
        arith::factor_at(s, i, sc) == arith::factor_at(s, arith::skip_space(s, i), sc),
        arith::skip_space(s, arith::skip_space(s, i)) == arith::skip_space(s, i),
    decreases s.len() - i,
{
    arith::lemma_runs(s, i);
    if i < s.len() && text::whitespace(s[i]) {
        lemma_factor_blank(s, i + 1, sc);
        arith::lemma_runs(s, i + 1);
    }
}

/// A sum reads as far as it is written, and goes on from there with its value.
proof fn lemma_sum_reads(s: Seq<char>, i: int, e: Sum, gap: Seq<char>, sc: arith::Scope)
    requires
        e.sound(),
        blank(gap),
        stands_at(s, i, e.written(gap)),
        run_stops(s, i + e.written(gap).len()),
        product_ends(s, i + e.written(gap).len()),
    ensures
        arith::expr_at(s, i, sc) == arith::expr_rest(
            s,
            arith::skip_space(s, i + e.written(gap).len()),
            e.value(sc),
            sc,
        ),
    decreases e, 0nat,
{
    let end = i + e.written(gap).len();
    arith::lemma_runs(s, end);
    lemma_factor_blank(s, end, sc);
    match e {
        Sum::One(p) => {
            lemma_product(s, i, p, gap, sc);
        },
        Sum::More { left, minus, right } => {
            lemma_product_begins(right, gap);
            lemma_operator_next(
                s,
                i,
                left.written(gap),
                gap,
                sign(minus),
                right.written(gap),
            );
            lemma_sum_reads(s, i, *left, gap, sc);
            let k = i + left.written(gap).len();
            let from = k + 2 * gap.len() + 1;
            lemma_product(s, from, right, gap, sc);
            lemma_term_blank(s, k + gap.len() + 1, sc);
            assert(from + right.written(gap).len() == end);
        },
    }
}

proof fn lemma_term_blank(s: Seq<char>, i: int, sc: arith::Scope)
    requires
        0 <= i <= s.len(),
    ensures
        arith::term_at(s, i, sc) == arith::term_at(s, arith::skip_space(s, i), sc),
{
    lemma_factor_blank(s, i, sc);
    arith::lemma_runs(s, i);
    arith::lemma_factor_onward(s, arith::skip_space(s, i), sc);
}

/// A sum in front of something that cannot go on with it evaluates to its
/// value.
proof fn lemma_sum(s: Seq<char>, i: int, e: Sum, gap: Seq<char>, sc: arith::Scope)
    requires
        e.sound(),
        blank(gap),
        stands_at(s, i, e.written(gap)),
        i + e.written(gap).len() == s.len() || s[i + e.written(gap).len()] == ')',
    ensures
        arith::expr_at(s, i, sc) == (e.value(sc), i + e.written(gap).len()),
    decreases e, 1nat,
{
    let end = i + e.written(gap).len();
    assert(arith::skip_space(s, end) == end);
    lemma_sum_reads(s, i, e, gap, sc);
}

/// An expression of numbers, references, signs, parentheses and `+ - * / %`,
/// written with any blanks around its operators, evaluates to its value:
/// products bind more tightly than sums, and operators of the same rank go
/// from left to right. Where a part has no value, such as a division by zero
/// or a result that does not fit, the whole expression counts as 0.
pub proof fn law_arithmetic(e: Sum, gap: Seq<char>, sc: arith::Scope)
    requires
        e.sound(),
        blank(gap),
    ensures
        arith::evaluated(e.written(gap), sc) == e.value(sc),
        arith::arithmetic(e.written(gap), sc) == arith::or_zero(e.value(sc)),
{
    let s = e.written(gap);
    lemma_sum_begins(e, gap);
    assert(s.subrange(0, s.len() as int) =~= s);
    lemma_sum(s, 0, e, gap, sc);
}

/// Blanks around an expression do not matter.
pub proof fn law_blanks_around(
    pre: Seq<char>,
    e: Sum,
    gap: Seq<char>,
    post: Seq<char>,
    sc: arith::Scope,
)
    requires
        e.sound(),
        blank(pre),
        blank(gap),
        blank(post),
    ensures
        arith::evaluated(pre + e.written(gap) + post, sc) == e.value(sc),
        arith::arithmetic(pre + e.written(gap) + post, sc) == arith::or_zero(e.value(sc)),
{
    let w = e.written(gap);
    let s = pre + w + post;
    let n = pre.len() as int;
    let end = n + w.len();
    lemma_sum_begins(e, gap);
    assert(s.subrange(0, n) =~= pre);
    assert(s.subrange(n, end) =~= w);
    assert(s.subrange(end, s.len() as int) =~= post);
    lemma_skip_gap(s, 0, pre, 0);
    assert(s[n] == w[0]);
    assert(arith::skip_space(s, n) == n);
    lemma_skip_gap(s, end, post, 0);
    assert(arith::skip_space(s, end) == s.len());
    if post.len() > 0 {
        assert(s[end] == post[0]);
        assert(!arith::name_char(post[0]) && text::whitespace(post[0]));
    }
    lemma_sum_reads(s, n, e, gap, sc);
    lemma_term_blank(s, 0, sc);
    arith::lemma_term_onward(s, n, sc);
    assert(arith::expr_at(s, 0, sc) == arith::expr_at(s, n, sc));
}

/// An expression with a stray parenthesis behind it has no value, whatever
/// follows, and so counts as 0.
pub proof fn law_stray_parenthesis(e: Sum, gap: Seq<char>, rest: Seq<char>, sc: arith::Scope)
    requires
        e.sound(),
        blank(gap),
    ensures
        arith::evaluated(e.written(gap) + seq![')'] + rest, sc) is None,
        arith::arithmetic(e.written(gap) + seq![')'] + rest, sc) == 0,
{
    let w = e.written(gap);
    let s = w + seq![')'] + rest;
    assert(s.subrange(0, w.len() as int) =~= w);
    assert(s[w.len() as int] == ')');
    lemma_sum(s, 0, e, gap, sc);
}

// ---------------------------------------------------------------------------
// Arithmetic expansion.
// ---------------------------------------------------------------------------

/// No parenthesis, and no mark.
pub open spec fn unbracketed(t: Seq<char>) -> bool {
    forall|k: int|
        0 <= k < t.len() ==> #[trigger] t[k] != '(' && t[k] != ')' && t[k] != MARK
}

proof fn lemma_pass_plain(s: Seq<char>, i: int, t: Seq<char>, depth: int, k: int)
    requires
        stands_at(s, i, t),
        unbracketed(t),
        0 <= k <= t.len(),
    ensures
        expand::arith_end(s, i + k, depth) == expand::arith_end(s, i + t.len(), depth),
    decreases t.len() - k,
{
    if k < t.len() {
        lemma_char_at(s, i, t, k);
        lemma_pass_plain(s, i, t, depth, k + 1);
    }
}

proof fn lemma_plain_parts(n: nat, gap: Seq<char>, op: char)
    requires
        blank(gap),
        op != '(' && op != ')' && op != MARK,
    ensures
        unbracketed(text::decimal(n)),
        unbracketed(gap + seq![op] + gap),
{
    law_decimal(n);
    let d = text::decimal(n);
    assert forall|k: int| 0 <= k < d.len() implies #[trigger] d[k] != '(' && d[k] != ')' && d[k]
        != MARK by {
        assert(text::ascii_digit(d[k]));
    }
    let t = gap + seq![op] + gap;
    assert forall|k: int| 0 <= k < t.len() implies #[trigger] t[k] != '(' && t[k] != ')' && t[k]
        != MARK by {
        if k < gap.len() {
            assert(text::whitespace(gap[k]));
        } else if k > gap.len() {
            assert(text::whitespace(gap[k - gap.len() - 1]));
        }
    }
}

proof fn lemma_reference_plain(name: Seq<char>, form: Form)
    requires
        (Operand::Reference { name, form }).sound(),
    ensures
        unbracketed(referred(name, form)),
{
    let w = referred(name, form);
    let from: int = match form {
        Form::Bare => 0,
        Form::Dollar => 1,
        Form::Braces => 2,
    };
    assert forall|k: int| 0 <= k < w.len() implies #[trigger] w[k] != '(' && w[k] != ')' && w[k]
        != MARK by {
        if from <= k < from + name.len() {
            assert(w[k] == name[k - from]);
            assert(arith::name_char(name[k - from]));
        }
    }
}

proof fn lemma_operand_markless(f: Operand, gap: Seq<char>)
    requires
        f.sound(),
        blank(gap),
    ensures
        quoting::markless(f.written(gap)),
    decreases f,
{
    let w = f.written(gap);
    match f {
        Operand::Number(n) => {
            lemma_plain_parts(n, gap, '+');
        },
        Operand::Reference { name, form } => {
            lemma_reference_plain(name, form);
        },
        Operand::Signed { minus, operand } => {
            lemma_operand_markless(*operand, gap);
            let inner = operand.written(gap);
            assert forall|k: int| 0 <= k < w.len() implies #[trigger] w[k] != MARK by {
                if k > 0 {
                    assert(w[k] == inner[k - 1]);
                }
            }
        },
        Operand::Group(e) => {
            lemma_sum_markless(*e, gap);
            let inner = e.written(gap);
            assert forall|k: int| 0 <= k < w.len() implies #[trigger] w[k] != MARK by {
                if 0 < k < w.len() - 1 {
                    assert(w[k] == inner[k - 1]);
                }
            }
        },
    }
}

proof fn lemma_joined_markless(a: Seq<char>, b: Seq<char>, c: Seq<char>)
    requires
        quoting::markless(a),
        unbracketed(b),
        quoting::markless(c),
    ensures
        quoting::markless(a + b + c),
{
    let t = a + b + c;
    assert forall|k: int| 0 <= k < t.len() implies #[trigger] t[k] != MARK by {
        if k < a.len() {
            assert(t[k] == a[k]);
        } else if k < a.len() + b.len() {
            assert(t[k] == b[k - a.len()]);
        } else {
            assert(t[k] == c[k - a.len() - b.len()]);
        }
    }
}

proof fn lemma_product_markless(p: Product, gap: Seq<char>)
    requires
        p.sound(),
        blank(gap),
    ensures
        quoting::markless(p.written(gap)),
    decreases p,
{
    match p {
        Product::One(f) => {
            lemma_operand_markless(f, gap);
        },
        Product::More { left, op, right } => {
            lemma_product_markless(*left, gap);
            lemma_operand_markless(right, gap);
            lemma_plain_parts(0, gap, op.symbol());
            let b = gap + seq![op.symbol()] + gap;
            lemma_joined_markless(left.written(gap), b, right.written(gap));
            assert(left.written(gap) + b + right.written(gap) =~= p.written(gap));
        },
    }
}

proof fn lemma_sum_markless(e: Sum, gap: Seq<char>)
    requires
        e.sound(),
        blank(gap),
    ensures
        quoting::markless(e.written(gap)),
    decreases e,
{
    match e {
        Sum::One(p) => {
            lemma_product_markless(p, gap);
        },
        Sum::More { left, minus, right } => {
            lemma_sum_markless(*left, gap);
            lemma_product_markless(right, gap);
            lemma_plain_parts(0, gap, sign(minus));
            let b = gap + seq![sign(minus)] + gap;
            lemma_joined_markless(left.written(gap), b, right.written(gap));
            assert(left.written(gap) + b + right.written(gap) =~= e.written(gap));
        },
    }
}

proof fn lemma_pass_operand(s: Seq<char>, i: int, f: Operand, gap: Seq<char>, depth: int)
    requires
        f.sound(),
        blank(gap),
        depth >= 1,
        stands_at(s, i, f.written(gap)),
    ensures
        expand::arith_end(s, i, depth) == expand::arith_end(s, i + f.written(gap).len(), depth),
    decreases f,
{
    match f {
        Operand::Number(n) => {
            lemma_plain_parts(n, gap, '+');
            lemma_pass_plain(s, i, text::decimal(n), depth, 0);
        },
        Operand::Reference { name, form } => {
            lemma_reference_plain(name, form);
            lemma_pass_plain(s, i, referred(name, form), depth, 0);
        },
        Operand::Signed { minus, operand } => {
            lemma_stands_split(s, i, seq![sign(minus)], operand.written(gap));
            lemma_char_at(s, i, seq![sign(minus)], 0);
            lemma_pass_operand(s, i + 1, *operand, gap, depth);
        },
        Operand::Group(e) => {
            lemma_stands_split(s, i, seq!['('] + e.written(gap), seq![')']);
            lemma_stands_split(s, i, seq!['('], e.written(gap));
            lemma_char_at(s, i, seq!['('], 0);
            lemma_char_at(s, i + 1 + e.written(gap).len(), seq![')'], 0);
            lemma_pass_sum(s, i + 1, *e, gap, depth + 1);
        },
    }
}

proof fn lemma_pass_product(s: Seq<char>, i: int, p: Product, gap: Seq<char>, depth: int)
    requires
        p.sound(),
        blank(gap),
        depth >= 1,
        stands_at(s, i, p.written(gap)),
    ensures
        expand::arith_end(s, i, depth) == expand::arith_end(s, i + p.written(gap).len(), depth),
    decreases p,
{
    match p {
        Product::One(f) => {
            lemma_pass_operand(s, i, f, gap, depth);
        },
        Product::More { left, op, right } => {
            let a = left.written(gap);
            let b = gap + seq![op.symbol()] + gap;
            assert(a + b + right.written(gap) =~= p.written(gap));
            lemma_stands_split(s, i, a + b, right.written(gap));
            lemma_stands_split(s, i, a, b);
            lemma_plain_parts(0, gap, op.symbol());
            lemma_pass_product(s, i, *left, gap, depth);
            lemma_pass_plain(s, i + a.len(), b, depth, 0);
            lemma_pass_operand(s, i + a.len() + b.len(), right, gap, depth);
        },
    }
}

proof fn lemma_pass_sum(s: Seq<char>, i: int, e: Sum, gap: Seq<char>, depth: int)
    requires
        e.sound(),
        blank(gap),
        depth >= 1,
        stands_at(s, i, e.written(gap)),
    ensures
        expand::arith_end(s, i, depth) == expand::arith_end(s, i + e.written(gap).len(), depth),
    decreases e,
{
    match e {
        Sum::One(p) => {
            lemma_pass_product(s, i, p, gap, depth);
        },
        Sum::More { left, minus, right } => {
            let a = left.written(gap);
            let b = gap + seq![sign(minus)] + gap;
            assert(a + b + right.written(gap) =~= e.written(gap));
            lemma_stands_split(s, i, a + b, right.written(gap));
            lemma_stands_split(s, i, a, b);
            lemma_plain_parts(0, gap, sign(minus));
            lemma_pass_sum(s, i, *left, gap, depth);
            lemma_pass_plain(s, i + a.len(), b, depth, 0);
            lemma_pass_product(s, i + a.len() + b.len(), right, gap, depth);
        },
    }
}

proof fn lemma_unmarked_is_same(t: Seq<char>)
    requires
        quoting::markless(t),
    ensures
        expand::unmarked(t) == t,
    decreases t.len(),
{
    reveal(Seq::filter);
    if t.len() > 0 {
        let shorter = t.drop_last();
        assert forall|k: int| 0 <= k < shorter.len() implies #[trigger] shorter[k] != MARK by {
            assert(t[k] != MARK);
        }
        lemma_unmarked_is_same(shorter);
        assert(shorter.push(t.last()) =~= t);
    }
}

/// An expression as the text of an arithmetic expansion.
pub open spec fn in_dollar_parens(w: Seq<char>) -> Seq<char> {
    seq!['$', '(', '('] + w + seq![')', ')']
}

proof fn lemma_expansion_end(e: Sum, gap: Seq<char>)
    requires
        e.sound(),
        blank(gap),
    ensures
        ({
            let w = e.written(gap);
            let s = in_dollar_parens(w);
            &&& expand::opens_arith(s, 0)
            &&& expand::arith_end(s, 0, 0) == Some(4 + w.len() as int)
            &&& s.len() == 5 + w.len()
            &&& s.subrange(2, 4 + w.len() as int) == seq!['('] + w + seq![')']
        }),
{
    let w = e.written(gap);
    let s = in_dollar_parens(w);
    let n = w.len() as int;
    assert(s.subrange(3, 3 + n) =~= w);
    assert(s[0] == '$' && s[1] == '(' && s[2] == '(' && s[3 + n] == ')' && s[4 + n] == ')');
    assert(expand::arith_end(s, 2, 1) == expand::arith_end(s, 3, 2));
    assert(expand::arith_end(s, 1, 0) == expand::arith_end(s, 2, 1));
    assert(expand::arith_end(s, 0, 0) == expand::arith_end(s, 1, 0));
    lemma_pass_sum(s, 3, e, gap, 2);
    assert(expand::arith_end(s, 4 + n, 1) == Some(4 + n));
    assert(expand::arith_end(s, 3 + n, 2) == expand::arith_end(s, 4 + n, 1));
    assert(s.subrange(2, 4 + n) =~= seq!['('] + w + seq![')']);
}

proof fn lemma_group(e: Sum, gap: Seq<char>, sc: arith::Scope)
    requires
        e.sound(),
        blank(gap),
    ensures
        arith::arithmetic(
            expand::unmarked(seq!['('] + e.written(gap) + seq![')']),
            sc,
        ) == arith::or_zero(e.value(sc)),
{
    let f = Operand::Group(Box::new(e));
    let p = Product::One(f);
    let group = Sum::One(p);
    let t = seq!['('] + e.written(gap) + seq![')'];
    assert(f.written(gap) == t && f.value(sc) == e.value(sc) && f.sound());
    assert(p.written(gap) == f.written(gap) && p.value(sc) == f.value(sc) && p.sound());
    assert(group.written(gap) == p.written(gap) && group.value(sc) == p.value(sc));
    assert(group.sound());
    lemma_sum_markless(group, gap);
    lemma_unmarked_is_same(t);
    law_arithmetic(group, gap, sc);
}

/// `$(( ... ))` around an expression becomes its value in decimal, 0 where it
/// has none, and leaves the variables alone.
pub proof fn law_arithmetic_expansion(e: Sum, gap: Seq<char>, sc: arith::Scope, status: int)
    requires
        e.sound(),
        blank(gap),
    ensures
        expand::expanded(in_dollar_parens(e.written(gap)), sc, status) == (
            text::decimal_int(arith::or_zero(e.value(sc))),
            sc.vars,
        ),
{
    let s = in_dollar_parens(e.written(gap));
    let t = text::decimal_int(arith::or_zero(e.value(sc)));
    lemma_expansion_end(e, gap);
    lemma_group(e, gap, sc);
    let x = expand::expansion(s, 0, sc, status);
    assert(s[0] == '$');
    assert(x.text == t && x.next == s.len() && x.vars == sc.vars);
    assert(Seq::<char>::empty() + t =~= t);
    let sc2 = arith::Scope { vars: sc.vars, positional: sc.positional };
    assert(expand::expanded_from(s, s.len() as int, t, sc2, status) == (t, sc.vars));
}

} // verus!
