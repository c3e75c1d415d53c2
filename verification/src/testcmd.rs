//! The `test` and `[` builtins.

use crate::arithlaws;
use crate::report;
use crate::report::{complain, Line};
use crate::text;
use crate::text::{clone_texts, parse_i64, same, trim};
use vstd::prelude::*;

verus! {

/// What the file system tells of an existing path.
#[derive(Debug, Clone, Copy, PartialEq, Eq, Structural)]
pub struct FileFacts {
    pub is_file: bool,
    pub is_dir: bool,
    pub len: u64,
    /// The permission bits.
    pub mode: u32,
}

/// What a file operator asks of an existing path.
#[derive(Debug, Clone, Copy, PartialEq, Eq, Structural)]
pub enum TestPath {
    Exists,
    File,
    Dir,
    NonEmpty,
    Readable,
    Writable,
    Executable,
}

/// The permission bits that an access asks one of.
pub open spec fn access_bits(kind: TestPath) -> u32 {
    match kind {
        TestPath::Readable => 0o444,
        TestPath::Writable => 0o222,
        TestPath::Executable => 0o111,
        _ => 0,
    }
}

/// Whether a path is as asked.
pub open spec fn path_is(f: FileFacts, kind: TestPath) -> bool {
    match kind {
        TestPath::Exists => true,
        TestPath::File => f.is_file,
        TestPath::Dir => f.is_dir,
        TestPath::NonEmpty => f.len > 0,
        _ => f.mode & access_bits(kind) != 0,
    }
}

/// Whether the permission bits grant an access to anyone.
pub fn file_mode_check(mode: u32, kind: TestPath) -> (r: bool)
    ensures
        r == (mode & access_bits(kind) != 0),
{
    match kind {
        TestPath::Readable => mode & 0o444 != 0,
        TestPath::Writable => mode & 0o222 != 0,
        TestPath::Executable => mode & 0o111 != 0,
        _ => {
            assert(mode & 0u32 == 0) by (bit_vector);
            false
        },
    }
}

/// 0 if the path exists and is as asked, else 1.
pub fn path_stat(facts: Option<FileFacts>, kind: TestPath) -> (r: i32)
    ensures
        r == match facts {
            Some(f) => if path_is(f, kind) {
                0i32
            } else {
                1i32
            },
            None => 1i32,
        },
{
    let flag = match facts {
        None => false,
        Some(f) => match kind {
            TestPath::Exists => true,
            TestPath::File => f.is_file,
            TestPath::Dir => f.is_dir,
            TestPath::NonEmpty => f.len > 0,
            _ => file_mode_check(f.mode, kind),
        },
    };
    if flag {
        0
    } else {
        1
    }
}

/// What a file operator asks.
pub open spec fn file_operator(op: Seq<char>) -> Option<TestPath> {
    if op == "-e"@ {
        Some(TestPath::Exists)
    } else if op == "-f"@ {
        Some(TestPath::File)
    } else if op == "-d"@ {
        Some(TestPath::Dir)
    } else if op == "-s"@ {
        Some(TestPath::NonEmpty)
    } else if op == "-r"@ {
        Some(TestPath::Readable)
    } else if op == "-w"@ {
        Some(TestPath::Writable)
    } else if op == "-x"@ {
        Some(TestPath::Executable)
    } else {
        None
    }
}

fn path_operator(op: &str) -> (r: Option<TestPath>)
    ensures
        r == file_operator(op@),
{
    if same(op, "-e") {
        Some(TestPath::Exists)
    } else if same(op, "-f") {
        Some(TestPath::File)
    } else if same(op, "-d") {
        Some(TestPath::Dir)
    } else if same(op, "-s") {
        Some(TestPath::NonEmpty)
    } else if same(op, "-r") {
        Some(TestPath::Readable)
    } else if same(op, "-w") {
        Some(TestPath::Writable)
    } else if same(op, "-x") {
        Some(TestPath::Executable)
    } else {
        None
    }
}

/// A comparison of integers.
#[derive(Debug, Clone, Copy, PartialEq, Eq, Structural)]
pub enum Relation {
    Equal,
    NotEqual,
    Less,
    LessOrEqual,
    Greater,
    GreaterOrEqual,
}

/// Whether two integers stand in a relation.
pub open spec fn related(x: int, r: Relation, y: int) -> bool {
    match r {
        Relation::Equal => x == y,
        Relation::NotEqual => x != y,
        Relation::Less => x < y,
        Relation::LessOrEqual => x <= y,
        Relation::Greater => x > y,
        Relation::GreaterOrEqual => x >= y,
    }
}

/// The relation that an operator names.
pub open spec fn relation_operator(op: Seq<char>) -> Option<Relation> {
    if op == "-eq"@ {
        Some(Relation::Equal)
    } else if op == "-ne"@ {
        Some(Relation::NotEqual)
    } else if op == "-lt"@ {
        Some(Relation::Less)
    } else if op == "-le"@ {
        Some(Relation::LessOrEqual)
    } else if op == "-gt"@ {
        Some(Relation::Greater)
    } else if op == "-ge"@ {
        Some(Relation::GreaterOrEqual)
    } else {
        None
    }
}

fn relation(op: &str) -> (r: Option<Relation>)
    ensures
        r == relation_operator(op@),
{
    if same(op, "-eq") {
        Some(Relation::Equal)
    } else if same(op, "-ne") {
        Some(Relation::NotEqual)
    } else if same(op, "-lt") {
        Some(Relation::Less)
    } else if same(op, "-le") {
        Some(Relation::LessOrEqual)
    } else if same(op, "-gt") {
        Some(Relation::Greater)
    } else if same(op, "-ge") {
        Some(Relation::GreaterOrEqual)
    } else {
        None
    }
}

/// The integer that an operand denotes, whitespace around it aside.
pub open spec fn operand(t: Seq<char>) -> Option<int> {
    text::parse_int(text::trimmed(t), i64::MIN as int, i64::MAX as int)
}

/// Compares two operands as integers; `None` if one of them is not a number.
pub fn int_cmp(a: &str, b: &str, r: Relation) -> (holds: Option<bool>)
    ensures
        holds == match (operand(a@), operand(b@)) {
            (Some(x), Some(y)) => Some(related(x, r, y)),
            _ => None,
        },
{
    let left = parse_i64(trim(a).as_str());
    let right = parse_i64(trim(b).as_str());
    match (left, right) {
        (Some(x), Some(y)) => Some(
            match r {
                Relation::Equal => x == y,
                Relation::NotEqual => x != y,
                Relation::Less => x < y,
                Relation::LessOrEqual => x <= y,
                Relation::Greater => x > y,
                Relation::GreaterOrEqual => x >= y,
            },
        ),
        _ => None,
    }
}

/// What a test comes to: its status (0 true, 1 false, 2 a usage error), and
/// the diagnostic that goes with it.
pub struct Verdict {
    pub status: i32,
    pub message: Option<Seq<char>>,
}

/// A verdict without a diagnostic.
pub open spec fn verdict(holds: bool) -> Verdict {
    Verdict {
        status: if holds {
            0
        } else {
            1
        },
        message: None,
    }
}

/// A usage error.
pub open spec fn misuse(message: Seq<char>) -> Verdict {
    Verdict { status: 2, message: Some(message) }
}

/// The verdict on `a op b`.
pub open spec fn binary_verdict(a: Seq<char>, op: Seq<char>, b: Seq<char>) -> Verdict {
    if op == "="@ || op == "=="@ {
        verdict(a == b)
    } else if op == "!="@ {
        verdict(a != b)
    } else {
        match relation_operator(op) {
            Some(r) => match (operand(a), operand(b)) {
                (Some(x), Some(y)) => verdict(related(x, r, y)),
                _ => misuse("test: integer expression expected"@),
            },
            None => misuse("test: binary operator expected"@),
        }
    }
}

/// The verdict on `op a`, given what the file system tells of `a`.
pub open spec fn unary_verdict(op: Seq<char>, a: Seq<char>, facts: Option<FileFacts>) -> Verdict {
    if op == "-n"@ {
        verdict(a.len() != 0)
    } else if op == "-z"@ {
        verdict(a.len() == 0)
    } else {
        match file_operator(op) {
            Some(kind) => verdict(
                match facts {
                    Some(f) => path_is(f, kind),
                    None => false,
                },
            ),
            None => misuse("test: unary operator expected"@),
        }
    }
}

/// A verdict turned round: a usage error stays one.
pub open spec fn negated(v: Verdict) -> Verdict {
    Verdict {
        status: if v.status == 0 {
            1
        } else if v.status == 1 {
            0
        } else {
            v.status
        },
        message: v.message,
    }
}

/// The verdict on a list of operands. A leading `!` swaps true and false.
pub open spec fn test_verdict(a: Seq<Seq<char>>, facts: Option<FileFacts>) -> Verdict
    decreases a.len(),
{
    if a.len() == 0 {
        verdict(false)
    } else if a[0] == "!"@ {
        if a.len() == 1 {
            misuse("test: argument expected"@)
        } else {
            negated(test_verdict(a.skip(1), facts))
        }
    } else if a.len() == 1 {
        verdict(a[0].len() != 0)
    } else if a.len() == 2 {
        unary_verdict(a[0], a[1], facts)
    } else if a.len() == 3 {
        binary_verdict(a[0], a[1], a[2])
    } else {
        misuse("test: too many arguments"@)
    }
}

/// The path that a test asks the file system about.
pub open spec fn tested_path(a: Seq<Seq<char>>) -> Option<Seq<char>>
    decreases a.len(),
{
    if a.len() >= 2 && a[0] == "!"@ {
        tested_path(a.skip(1))
    } else if a.len() == 2 && file_operator(a[0]) is Some {
        Some(a[1])
    } else {
        None
    }
}

/// The diagnostic of a verdict as lines.
pub open spec fn verdict_lines(v: Verdict) -> Seq<report::LineModel> {
    match v.message {
        Some(m) => seq![report::complained(m)],
        None => Seq::empty(),
    }
}

fn status_of(holds: bool) -> (r: i32)
    ensures
        r == verdict(holds).status,
{
    if holds {
        0
    } else {
        1
    }
}

fn misused(message: &str, lines: &mut Vec<Line>) -> (r: i32)
    ensures
        r == 2,
        report::line_models(final(lines)@) == report::line_models(old(lines)@) + verdict_lines(
            misuse(message@),
        ),
{
    let ghost before = report::line_models(lines@);
    complain(lines, message.to_owned());
    assert(report::line_models(lines@) =~= before + verdict_lines(misuse(message@)));
    2
}

/// Evaluates `a op b`.
pub fn eval_binary(a: &str, op: &str, b: &str, lines: &mut Vec<Line>) -> (r: i32)
    ensures
        r == binary_verdict(a@, op@, b@).status,
        report::line_models(final(lines)@) == report::line_models(old(lines)@) + verdict_lines(
            binary_verdict(a@, op@, b@),
        ),
{
    proof {
        assert(report::line_models(lines@) + Seq::empty() =~= report::line_models(lines@));
    }
    if same(op, "=") || same(op, "==") {
        status_of(same(a, b))
    } else if same(op, "!=") {
        status_of(!same(a, b))
    } else {
        match relation(op) {
            Some(r) => match int_cmp(a, b, r) {
                Some(holds) => status_of(holds),
                None => misused("test: integer expression expected", lines),
            },
            None => misused("test: binary operator expected", lines),
        }
    }
}

fn eval_unary(op: &str, a: &str, facts: Option<FileFacts>, lines: &mut Vec<Line>) -> (r: i32)
    ensures
        r == unary_verdict(op@, a@, facts).status,
        report::line_models(final(lines)@) == report::line_models(old(lines)@) + verdict_lines(
            unary_verdict(op@, a@, facts),
        ),
{
    proof {
        assert(report::line_models(lines@) + Seq::empty() =~= report::line_models(lines@));
    }
    if same(op, "-n") {
        status_of(!a.is_empty())
    } else if same(op, "-z") {
        status_of(a.is_empty())
    } else {
        match path_operator(op) {
            Some(kind) => path_stat(facts, kind),
            None => misused("test: unary operator expected", lines),
        }
    }
}

fn eval_from(
    a: &[String],
    from: usize,
    facts: Option<FileFacts>,
    lines: &mut Vec<Line>,
) -> (r: i32)
    requires
        from <= a@.len(),
    ensures
        r == test_verdict(text::texts(a@).skip(from as int), facts).status,
        report::line_models(final(lines)@) == report::line_models(old(lines)@) + verdict_lines(
            test_verdict(text::texts(a@).skip(from as int), facts),
        ),
    decreases a@.len() - from,
{
    let ghost s = text::texts(a@).skip(from as int);
    proof {
        assert(report::line_models(lines@) + Seq::empty() =~= report::line_models(lines@));
    }
    let n: usize = a.len() - from;
    if n == 0 {
        return 1;
    }
    if same(a[from].as_str(), "!") {
        if n == 1 {
            return misused("test: argument expected", lines);
        }
        assert(s.skip(1) =~= text::texts(a@).skip(from + 1));
        let status: i32 = eval_from(a, from + 1, facts, lines);
        return if status == 0 {
            1
        } else if status == 1 {
            0
        } else {
            status
        };
    }
    if n == 1 {
        status_of(!a[from].as_str().is_empty())
    } else if n == 2 {
        eval_unary(a[from].as_str(), a[from + 1].as_str(), facts, lines)
    } else if n == 3 {
        eval_binary(a[from].as_str(), a[from + 1].as_str(), a[from + 2].as_str(), lines)
    } else {
        misused("test: too many arguments", lines)
    }
}

/// Evaluates the operands of a test, `facts` being what the file system tells
/// of the path that they ask about. The diagnostic, if any, goes to `lines`.
pub fn eval_test(a: &[String], facts: Option<FileFacts>, lines: &mut Vec<Line>) -> (r: i32)
    ensures
        r == test_verdict(text::texts(a@), facts).status,
        report::line_models(final(lines)@) == report::line_models(old(lines)@) + verdict_lines(
            test_verdict(text::texts(a@), facts),
        ),
{
    assert(text::texts(a@).skip(0) =~= text::texts(a@));
    eval_from(a, 0, facts, lines)
}

/// The path that the operands ask the file system about.
pub fn path_in_test(a: &[String]) -> (r: Option<String>)
    ensures
        match r {
            Some(p) => tested_path(text::texts(a@)) == Some(p@),
            None => tested_path(text::texts(a@)) is None,
        },
{
    let ghost all = text::texts(a@);
    let mut i: usize = 0;
    assert(all.skip(0) =~= all);
    while i < a.len() && a.len() - i >= 2 && same(a[i].as_str(), "!")
        invariant
            i <= a@.len(),
            all == text::texts(a@),
            tested_path(all) == tested_path(all.skip(i as int)),
        decreases a@.len() - i,
    {
        assert(all.skip(i as int).skip(1) =~= all.skip(i + 1));
        i += 1;
    }
    if a.len() - i == 2 && path_operator(a[i].as_str()).is_some() {
        Some(a[i + 1].clone())
    } else {
        None
    }
}

/// The operands of `test` or `[`: without the command word, and for `[`
/// without the closing `]`; `None` where that is missing.
pub open spec fn test_operands(args: Seq<Seq<char>>) -> Option<Seq<Seq<char>>> {
    if args.len() > 0 && args[0] == "["@ {
        if args.len() > 1 && args.last() == "]"@ {
            Some(args.subrange(1, args.len() - 1))
        } else {
            None
        }
    } else {
        Some(args.skip(1))
    }
}

/// The operands of `test` or `[`.
pub fn operands_of(args: &[String]) -> (r: Option<Vec<String>>)
    requires
        args@.len() > 0,
    ensures
        match r {
            Some(v) => test_operands(text::texts(args@)) == Some(text::texts(v@)),
            None => test_operands(text::texts(args@)) is None,
        },
{
    let mut v = clone_texts(args);
    let ghost all = text::texts(args@);
    v.remove(0);
    assert(text::texts(v@) =~= all.skip(1));
    if same(args[0].as_str(), "[") {
        if args.len() > 1 && same(args[args.len() - 1].as_str(), "]") {
            v.pop();
            assert(text::texts(v@) =~= all.subrange(1, all.len() - 1));
            Some(v)
        } else {
            None
        }
    } else {
        Some(v)
    }
}

/// The verdict on `test` or `[`: `[` needs a closing `]`.
pub open spec fn command_verdict(args: Seq<Seq<char>>, facts: Option<FileFacts>) -> Verdict {
    match test_operands(args) {
        Some(a) => test_verdict(a, facts),
        None => misuse("[: missing ']'"@),
    }
}

/// Implements `test` and `[`. Returns 0 (true), 1 (false) or 2 (usage error).
pub fn builtin_test(args: &[String], facts: Option<FileFacts>, lines: &mut Vec<Line>) -> (r: i32)
    requires
        args@.len() > 0,
    ensures
        r == command_verdict(text::texts(args@), facts).status,
        report::line_models(final(lines)@) == report::line_models(old(lines)@) + verdict_lines(
            command_verdict(text::texts(args@), facts),
        ),
{
    match operands_of(args) {
        Some(a) => eval_test(&a, facts, lines),
        None => misused("[: missing ']'", lines),
    }
}

/// The status of a test is 0, 1 or 2.
proof fn lemma_status(a: Seq<Seq<char>>, facts: Option<FileFacts>)
    ensures
        0 <= test_verdict(a, facts).status <= 2,
    decreases a.len(),
{
    if a.len() > 1 && a[0] == "!"@ {
        lemma_status(a.skip(1), facts);
    }
}

/// Negation swaps true and false, and keeps a usage error with its diagnostic.
pub proof fn law_negation(a: Seq<Seq<char>>, facts: Option<FileFacts>)
    requires
        a.len() > 0,
    ensures
        test_verdict(seq!["!"@] + a, facts).status == if test_verdict(a, facts).status == 2 {
            2int
        } else {
            1 - test_verdict(a, facts).status
        },
        test_verdict(seq!["!"@] + a, facts).message == test_verdict(a, facts).message,
{
    assert((seq!["!"@] + a).skip(1) =~= a);
    lemma_status(a, facts);
}

/// `-z` and `-n` are opposites, and so are `=` and `!=`.
pub proof fn law_opposite_texts(a: Seq<char>, b: Seq<char>, facts: Option<FileFacts>)
    ensures
        unary_verdict("-z"@, a, facts).status == 1 - unary_verdict("-n"@, a, facts).status,
        binary_verdict(a, "="@, b).status == 1 - binary_verdict(a, "!="@, b).status,
{
    reveal_strlit("-z");
    reveal_strlit("-n");
    reveal_strlit("=");
    reveal_strlit("==");
    reveal_strlit("!=");
    assert("-z"@[1] != "-n"@[1]);
    assert("!="@[0] != "=="@[0]);
    assert("!="@.len() != "="@.len());
}

/// On numbers the integer operators are opposites in pairs: `-eq` and `-ne`,
/// `-lt` and `-ge`, `-gt` and `-le`; on anything else each is a usage error.
pub proof fn law_opposite_relations(a: Seq<char>, b: Seq<char>)
    ensures
        operand(a) is Some && operand(b) is Some ==> {
            &&& binary_verdict(a, "-eq"@, b).status == 1 - binary_verdict(a, "-ne"@, b).status
            &&& binary_verdict(a, "-lt"@, b).status == 1 - binary_verdict(a, "-ge"@, b).status
            &&& binary_verdict(a, "-gt"@, b).status == 1 - binary_verdict(a, "-le"@, b).status
        },
        operand(a) is None || operand(b) is None ==> {
            &&& binary_verdict(a, "-eq"@, b).status == 2
            &&& binary_verdict(a, "-ne"@, b).status == 2
            &&& binary_verdict(a, "-lt"@, b).status == 2
            &&& binary_verdict(a, "-le"@, b).status == 2
            &&& binary_verdict(a, "-gt"@, b).status == 2
            &&& binary_verdict(a, "-ge"@, b).status == 2
        },
{
    reveal_strlit("=");
    reveal_strlit("==");
    reveal_strlit("!=");
    reveal_strlit("-eq");
    reveal_strlit("-ne");
    reveal_strlit("-lt");
    reveal_strlit("-le");
    reveal_strlit("-gt");
    reveal_strlit("-ge");
    assert("-eq"@[1] == 'e' && "-ne"@[1] == 'n' && "-lt"@[1] == 'l' && "-le"@[1] == 'l'
        && "-gt"@[1] == 'g' && "-ge"@[1] == 'g');
    assert("-lt"@[2] == 't' && "-le"@[2] == 'e' && "-gt"@[2] == 't' && "-ge"@[2] == 'e');
    assert("="@.len() == 1 && "=="@.len() == 2 && "!="@.len() == 2 && "-eq"@.len() == 3
        && "-ne"@.len() == 3 && "-lt"@.len() == 3 && "-le"@.len() == 3 && "-gt"@.len() == 3
        && "-ge"@.len() == 3);
}

/// Operands that are the decimal notation of two integers compare as these
/// integers: `-eq`, `-ne`, `-lt`, `-le`, `-gt` and `-ge` are true exactly if
/// the integers are equal, unequal, and so on, and false otherwise.
pub proof fn law_integer_tests(x: int, y: int, facts: Option<FileFacts>)
    requires
        i64::MIN <= x <= i64::MAX,
        i64::MIN <= y <= i64::MAX,
    ensures
        ({
            let a = text::decimal_int(x);
            let b = text::decimal_int(y);
            &&& test_verdict(seq![a, "-eq"@, b], facts).status == if x == y { 0int } else { 1 }
            &&& test_verdict(seq![a, "-ne"@, b], facts).status == if x != y { 0int } else { 1 }
            &&& test_verdict(seq![a, "-lt"@, b], facts).status == if x < y { 0int } else { 1 }
            &&& test_verdict(seq![a, "-le"@, b], facts).status == if x <= y { 0int } else { 1 }
            &&& test_verdict(seq![a, "-gt"@, b], facts).status == if x > y { 0int } else { 1 }
            &&& test_verdict(seq![a, "-ge"@, b], facts).status == if x >= y { 0int } else { 1 }
        }),
{
    let a = text::decimal_int(x);
    let b = text::decimal_int(y);
    lemma_decimal_operand(x);
    lemma_decimal_operand(y);
    lemma_relations(a, b, x, y);
    assert(a != "!"@) by {
        lemma_not_a_bang(x);
    }
}

/// Whatever stands for an integer, whitespace around it or not, compares as
/// that integer: exactly one of `-lt`, `-eq` and `-gt` holds, and `-le`, `-ge`
/// and `-ne` hold if one of two of them does.
pub proof fn law_trichotomy(a: Seq<char>, b: Seq<char>, x: int, y: int)
    requires
        operand(a) == Some(x),
        operand(b) == Some(y),
    ensures
        x < y <==> binary_verdict(a, "-lt"@, b).status == 0,
        x < y <==> binary_verdict(b, "-gt"@, a).status == 0,
        x == y <==> binary_verdict(a, "-eq"@, b).status == 0,
        x > y <==> binary_verdict(a, "-gt"@, b).status == 0,
        x <= y <==> binary_verdict(a, "-le"@, b).status == 0,
        x >= y <==> binary_verdict(a, "-ge"@, b).status == 0,
        x != y <==> binary_verdict(a, "-ne"@, b).status == 0,
{
    lemma_relations(a, b, x, y);
    lemma_relations(b, a, y, x);
}

proof fn lemma_relations(a: Seq<char>, b: Seq<char>, x: int, y: int)
    requires
        operand(a) == Some(x),
        operand(b) == Some(y),
    ensures
        binary_verdict(a, "-eq"@, b) == verdict(x == y),
        binary_verdict(a, "-ne"@, b) == verdict(x != y),
        binary_verdict(a, "-lt"@, b) == verdict(x < y),
        binary_verdict(a, "-le"@, b) == verdict(x <= y),
        binary_verdict(a, "-gt"@, b) == verdict(x > y),
        binary_verdict(a, "-ge"@, b) == verdict(x >= y),
{
    reveal_strlit("=");
    reveal_strlit("==");
    reveal_strlit("!=");
    reveal_strlit("-eq");
    reveal_strlit("-ne");
    reveal_strlit("-lt");
    reveal_strlit("-le");
    reveal_strlit("-gt");
    reveal_strlit("-ge");
    assert("-eq"@[1] == 'e' && "-ne"@[1] == 'n' && "-lt"@[1] == 'l' && "-le"@[1] == 'l'
        && "-gt"@[1] == 'g' && "-ge"@[1] == 'g');
    assert("-lt"@[2] == 't' && "-le"@[2] == 'e' && "-gt"@[2] == 't' && "-ge"@[2] == 'e');
    assert("="@.len() == 1 && "=="@.len() == 2 && "!="@.len() == 2 && "-eq"@.len() == 3
        && "-ne"@.len() == 3 && "-lt"@.len() == 3 && "-le"@.len() == 3 && "-gt"@.len() == 3
        && "-ge"@.len() == 3);
}

proof fn lemma_decimal_operand(n: int)
    requires
        i64::MIN <= n <= i64::MAX,
    ensures
        operand(text::decimal_int(n)) == Some(n),
{
    let s = text::decimal_int(n);
    arithlaws::law_decimal_reads_back(n, i64::MIN as int, i64::MAX as int);
    if n < 0 {
        arithlaws::law_decimal((-n) as nat);
        assert(s[0] == '-');
        assert(s.last() == text::decimal((-n) as nat).last());
    } else {
        arithlaws::law_decimal(n as nat);
        assert(text::ascii_digit(s[0]));
    }
    assert(text::ascii_digit(s.last()));
    text::lemma_untrimmed(s);
}

proof fn lemma_not_a_bang(n: int)
    ensures
        text::decimal_int(n) != "!"@,
{
    reveal_strlit("!");
    let s = text::decimal_int(n);
    if n < 0 {
        assert(s[0] == '-');
    } else {
        arithlaws::law_decimal(n as nat);
        assert(text::ascii_digit(s[0]));
    }
    assert("!"@[0] == '!');
}

/// Texts compare character by character: `=` and `==` are true exactly if the
/// two are the same, `!=` exactly if they are not; `-n` is true exactly of a
/// text with characters, `-z` exactly of one without, and a text alone counts
/// like `-n`. No operand at all is false.
pub proof fn law_text_tests(a: Seq<char>, b: Seq<char>, facts: Option<FileFacts>)
    requires
        a != "!"@,
    ensures
        test_verdict(seq![a, "="@, b], facts).status == if a == b { 0int } else { 1 },
        test_verdict(seq![a, "=="@, b], facts).status == if a == b { 0int } else { 1 },
        test_verdict(seq![a, "!="@, b], facts).status == if a == b { 1int } else { 0 },
        test_verdict(seq!["-n"@, a], facts).status == if a.len() > 0 { 0int } else { 1 },
        test_verdict(seq!["-z"@, a], facts).status == if a.len() > 0 { 1int } else { 0 },
        test_verdict(seq![a], facts).status == if a.len() > 0 { 0int } else { 1 },
        test_verdict(Seq::empty(), facts).status == 1,
{
    reveal_strlit("=");
    reveal_strlit("==");
    reveal_strlit("!=");
    reveal_strlit("-n");
    reveal_strlit("-z");
    reveal_strlit("!");
    assert("!="@[0] != "=="@[0]);
    assert("!="@.len() == 2 && "="@.len() == 1);
    assert("-n"@.len() == 2 && "-z"@.len() == 2 && "!"@.len() == 1);
    assert("-n"@[1] != "-z"@[1]);
}

/// The file operators ask what their letters stand for. A path that does not
/// exist fails each of them; one that does exist passes `-e`, passes `-f` if it
/// is a file, `-d` if it is a directory, `-s` if it holds a byte, and `-r`,
/// `-w` and `-x` if anyone has that permission: the owner, the group or the
/// others.
pub proof fn law_file_tests(path: Seq<char>, f: FileFacts, op: Seq<char>)
    ensures
        op == "-e"@ || op == "-f"@ || op == "-d"@ || op == "-s"@ || op == "-r"@ || op == "-w"@
            || op == "-x"@ ==> test_verdict(seq![op, path], None).status == 1 && tested_path(
            seq![op, path],
        ) == Some(path),
        test_verdict(seq!["-e"@, path], Some(f)).status == 0,
        test_verdict(seq!["-f"@, path], Some(f)).status == if f.is_file { 0int } else { 1 },
        test_verdict(seq!["-d"@, path], Some(f)).status == if f.is_dir { 0int } else { 1 },
        test_verdict(seq!["-s"@, path], Some(f)).status == if f.len >= 1 { 0int } else { 1 },
        test_verdict(seq!["-r"@, path], Some(f)).status == if f.mode & 0o400 != 0 || f.mode & 0o040
            != 0 || f.mode & 0o004 != 0 { 0int } else { 1 },
        test_verdict(seq!["-w"@, path], Some(f)).status == if f.mode & 0o200 != 0 || f.mode & 0o020
            != 0 || f.mode & 0o002 != 0 { 0int } else { 1 },
        test_verdict(seq!["-x"@, path], Some(f)).status == if f.mode & 0o100 != 0 || f.mode & 0o010
            != 0 || f.mode & 0o001 != 0 { 0int } else { 1 },
{
    reveal_strlit("!");
    reveal_strlit("-n");
    reveal_strlit("-z");
    reveal_strlit("-e");
    reveal_strlit("-f");
    reveal_strlit("-d");
    reveal_strlit("-s");
    reveal_strlit("-r");
    reveal_strlit("-w");
    reveal_strlit("-x");
    assert("!"@.len() == 1 && "-n"@.len() == 2 && "-z"@.len() == 2 && "-e"@.len() == 2);
    assert("-f"@.len() == 2 && "-d"@.len() == 2 && "-s"@.len() == 2 && "-r"@.len() == 2);
    assert("-w"@.len() == 2 && "-x"@.len() == 2);
    assert("-n"@[1] == 'n' && "-z"@[1] == 'z' && "-e"@[1] == 'e' && "-f"@[1] == 'f');
    assert("-d"@[1] == 'd' && "-s"@[1] == 's' && "-r"@[1] == 'r' && "-w"@[1] == 'w');
    assert("-x"@[1] == 'x');
    let m = f.mode;
    assert(m & 0o444 != 0 <==> m & 0o400 != 0 || m & 0o040 != 0 || m & 0o004 != 0)
        by (bit_vector);
    assert(m & 0o222 != 0 <==> m & 0o200 != 0 || m & 0o020 != 0 || m & 0o002 != 0)
        by (bit_vector);
    assert(m & 0o111 != 0 <==> m & 0o100 != 0 || m & 0o010 != 0 || m & 0o001 != 0)
        by (bit_vector);
}

/// More than three operands, with no `!` in front, are a usage error, and so
/// is an operator that is none.
pub proof fn law_misused_tests(a: Seq<Seq<char>>, facts: Option<FileFacts>)
    requires
        a.len() > 3,
        a[0] != "!"@,
    ensures
        test_verdict(a, facts).status == 2,
        test_verdict(a, facts).message is Some,
        tested_path(a) is None,
{
}

/// `[` is `test` with a `]` behind the operands, and a usage error without it.
pub proof fn law_brackets(operands: Seq<Seq<char>>, facts: Option<FileFacts>)
    ensures
        command_verdict(seq!["test"@] + operands, facts) == test_verdict(operands, facts),
        command_verdict(seq!["["@] + operands + seq!["]"@], facts) == test_verdict(
            operands,
            facts,
        ),
        (operands.len() == 0 || operands.last() != "]"@) ==> command_verdict(
            seq!["["@] + operands,
            facts,
        ).status == 2,
{
    reveal_strlit("test");
    reveal_strlit("[");
    reveal_strlit("]");
    assert("test"@.len() == 4 && "["@.len() == 1 && "]"@.len() == 1);
    assert("["@[0] == '[' && "]"@[0] == ']');
    let closed = seq!["["@] + operands + seq!["]"@];
    assert((seq!["test"@] + operands).skip(1) =~= operands);
    assert(closed.last() == "]"@);
    assert(closed.subrange(1, closed.len() - 1) =~= operands);
    let open = seq!["["@] + operands;
    if operands.len() > 0 {
        assert(open.last() == operands.last());
    }
}

/// A test and its negation ask the file system about the same path.
pub proof fn law_negated_paths(a: Seq<Seq<char>>)
    requires
        a.len() > 0,
    ensures
        tested_path(seq!["!"@] + a) == tested_path(a),
{
    assert((seq!["!"@] + a).skip(1) =~= a);
}

/// What a usage error says: that an operand is no integer, that an operator is
/// none, that there are too many operands, or that one is missing behind `!`. A
/// test that comes to true or false says nothing.
pub proof fn law_test_messages(
    a: Seq<char>,
    op: Seq<char>,
    b: Seq<char>,
    facts: Option<FileFacts>,
)
    requires
        a != "!"@,
        op != "!"@,
    ensures
        operand(a) is None ==> test_verdict(seq![a, "-lt"@, b], facts).message == Some(
            "test: integer expression expected"@,
        ),
        op.len() > 3 ==> test_verdict(seq![a, op, b], facts).message == Some(
            "test: binary operator expected"@,
        ) && test_verdict(seq![a, op, b], facts).status == 2,
        op.len() > 2 ==> test_verdict(seq![op, a], facts).message == Some(
            "test: unary operator expected"@,
        ) && test_verdict(seq![op, a], facts).status == 2,
        test_verdict(seq![a, op, b, b], facts).message == Some("test: too many arguments"@),
        test_verdict(seq!["!"@], facts).message == Some("test: argument expected"@),
        test_verdict(seq!["!"@], facts).status == 2,
        test_verdict(seq![a, "="@, b], facts).message is None,
        test_verdict(seq![a], facts).message is None,
        test_verdict(Seq::empty(), facts).message is None,
{
    reveal_strlit("=");
    reveal_strlit("==");
    reveal_strlit("!=");
    reveal_strlit("-eq");
    reveal_strlit("-ne");
    reveal_strlit("-lt");
    reveal_strlit("-le");
    reveal_strlit("-gt");
    reveal_strlit("-ge");
    reveal_strlit("-n");
    reveal_strlit("-z");
    reveal_strlit("-e");
    reveal_strlit("-f");
    reveal_strlit("-d");
    reveal_strlit("-s");
    reveal_strlit("-r");
    reveal_strlit("-w");
    reveal_strlit("-x");
    assert("-lt"@[1] == 'l' && "-lt"@[2] == 't' && "-eq"@[1] == 'e' && "-ne"@[1] == 'n');
}

} // verus!
