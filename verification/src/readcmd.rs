//! The `read` builtin.

use crate::arith;
use crate::arith::after_space;
use crate::outside;
use crate::outside::{ask, end, ReadOutcome, Request, Step};
use crate::report;
use crate::report::{complain, concat, no_lines};
use crate::state;
use crate::state::ShellState;
use crate::table;
use crate::text;
use crate::text::{first_is, is_whitespace, same, slice_text, split_words, to_chars, trim};
use crate::vars;
use crate::vars::Vars;
use vstd::prelude::*;

verus! {

/// Whether `-r` stands among the arguments from the `i`th on.
pub open spec fn raw_from(args: Seq<Seq<char>>, i: int) -> bool
    decreases args.len() - i,
{
    if i < 0 || i >= args.len() {
        false
    } else {
        args[i] == "-r"@ || raw_from(args, i + 1)
    }
}

/// The variable names among the arguments from the `i`th on, behind those of
/// `acc`. What begins with `-` is a flag.
pub open spec fn names_from(args: Seq<Seq<char>>, i: int, acc: Seq<Seq<char>>) -> Seq<Seq<char>>
    decreases args.len() - i,
{
    if i < 0 || i >= args.len() {
        acc
    } else if args[i].len() > 0 && args[i][0] == '-' {
        names_from(args, i + 1, acc)
    } else {
        names_from(args, i + 1, acc.push(args[i]))
    }
}

/// The variables that `read` fills: `REPLY` if none is named.
pub open spec fn read_names(args: Seq<Seq<char>>) -> Seq<Seq<char>> {
    let names = names_from(args, 1, Seq::empty());
    if names.len() == 0 {
        seq!["REPLY"@]
    } else {
        names
    }
}

/// Implements `read`: asks for a line.
pub fn builtin_read(args: &[String]) -> (r: Step)
    ensures
        r.model() == outside::asking(
            Seq::empty(),
            outside::RequestModel::ReadLine {
                raw: raw_from(text::texts(args@), 1),
                names: read_names(text::texts(args@)),
            },
        ),
{
    let ghost all = text::texts(args@);
    let mut raw = false;
    let mut names: Vec<String> = Vec::new();
    let mut i: usize = 1;
    proof {
        reveal_strlit("-r");
        assert("-r"@.len() == 2 && "-r"@[0] == '-');
        assert(text::texts(names@) =~= Seq::empty());
    }
    while i < args.len()
        invariant
            1 <= i,
            i <= args@.len() || i == 1,
            all == text::texts(args@),
            "-r"@.len() == 2 && "-r"@[0] == '-',
            raw_from(all, 1) == (raw || raw_from(all, i as int)),
            names_from(all, 1, Seq::empty()) == names_from(all, i as int, text::texts(names@)),
        decreases args@.len() - i,
    {
        assert(all[i as int] == args@[i as int]@);
        if same(args[i].as_str(), "-r") {
            raw = true;
        } else if !first_is(args[i].as_str(), '-') {
            let ghost before = text::texts(names@);
            names.push(args[i].clone());
            assert(text::texts(names@) =~= before.push(all[i as int]));
        }
        i += 1;
    }
    if names.len() == 0 {
        names.push("REPLY".to_owned());
        assert(text::texts(names@) =~= seq!["REPLY"@]);
    }
    ask(Request::ReadLine { raw, names })
}

/// Bytes as characters, one for one.
pub open spec fn byte_chars(bytes: Seq<u8>) -> Seq<char> {
    bytes.map_values(|b: u8| b as char)
}

/// `s[i..]` behind `acc`, with every backslash dropped and the character
/// behind it kept.
pub open spec fn unescaped_from(s: Seq<char>, i: int, acc: Seq<char>) -> Seq<char>
    decreases s.len() - i,
{
    if i < 0 || i >= s.len() {
        acc
    } else if s[i] != '\\' {
        unescaped_from(s, i + 1, acc.push(s[i]))
    } else if i + 1 < s.len() {
        unescaped_from(s, i + 2, acc.push(s[i + 1]))
    } else {
        acc
    }
}

/// The text without newlines and carriage returns at its end.
pub open spec fn without_line_end(s: Seq<char>) -> Seq<char>
    decreases s.len(),
{
    if s.len() > 0 && (s.last() == '\n' || s.last() == '\r') {
        without_line_end(s.drop_last())
    } else {
        s
    }
}

/// The line that was read: escapes are undone unless it is raw.
pub open spec fn line_of(bytes: Seq<u8>, raw: bool) -> Seq<char> {
    let chars = byte_chars(bytes);
    without_line_end(
        if raw {
            chars
        } else {
            unescaped_from(chars, 0, Seq::empty())
        },
    )
}

/// The end of the word that `i` lies in: the first whitespace from there on.
pub open spec fn word_end(s: Seq<char>, i: int) -> int
    decreases s.len() - i,
{
    if 0 <= i < s.len() && !text::whitespace(s[i]) {
        word_end(s, i + 1)
    } else {
        i
    }
}

/// The position behind the `k` words of `s[i..]`.
pub open spec fn behind_words(s: Seq<char>, i: int, k: int) -> int
    decreases k,
{
    if k <= 0 {
        i
    } else {
        behind_words(s, word_end(s, arith::skip_space(s, i)), k - 1)
    }
}

/// The rest of a line behind `k` words, as it stands, but for the whitespace
/// at either end.
pub open spec fn rest_of_line(line: Seq<char>, k: int) -> Seq<char> {
    text::trimmed(line.skip(behind_words(line, 0, k)))
}

/// What the `k`th of `n` names gets of a line: a word, the last one the rest
/// of the line, and nothing where no word is left.
pub open spec fn share(line: Seq<char>, n: int, k: int) -> Seq<char> {
    if k == n - 1 {
        rest_of_line(line, k)
    } else if k < text::words(line).len() {
        text::words(line)[k]
    } else {
        Seq::empty()
    }
}

/// The variables after the names from the `i`th on are filled from the line.
pub open spec fn filled(
    line: Seq<char>,
    names: Seq<Seq<char>>,
    i: int,
    vars: vars::VarsModel,
) -> vars::VarsModel
    decreases names.len() - i,
{
    if i < 0 || i >= names.len() {
        vars
    } else {
        filled(line, names, i + 1, vars.set(names[i], share(line, names.len() as int, i)))
    }
}

proof fn lemma_filled(
    line: Seq<char>,
    names: Seq<Seq<char>>,
    i: int,
    vars: vars::VarsModel,
    name: Seq<char>,
)
    requires
        0 <= i <= names.len(),
        forall|k: int| i <= k < names.len() ==> #[trigger] names[k] != name,
    ensures
        table::lookup(filled(line, names, i, vars).shell, name) == table::lookup(
            vars.shell,
            name,
        ),
    decreases names.len() - i,
{
    if i < names.len() {
        let value = share(line, names.len() as int, i);
        table::law_read_after_write(vars.shell, names[i], value, name);
        lemma_filled(line, names, i + 1, vars.set(names[i], value), name);
    }
}

proof fn lemma_share(
    line: Seq<char>,
    names: Seq<Seq<char>>,
    i: int,
    vars: vars::VarsModel,
    k: int,
)
    requires
        0 <= i <= k < names.len(),
        forall|j: int| k < j < names.len() ==> #[trigger] names[j] != names[k],
    ensures
        filled(line, names, i, vars).value(names[k]) == share(line, names.len() as int, k),
    decreases k - i,
{
    let value = share(line, names.len() as int, i);
    if i < k {
        lemma_share(line, names, i + 1, vars.set(names[i], value), k);
    } else {
        table::law_read_after_write(vars.shell, names[k], value, names[k]);
        lemma_filled(line, names, i + 1, vars.set(names[i], value), names[k]);
    }
}

/// Each variable gets one word of the line, the last one the rest of the line,
/// and those for which no word is left are empty.
pub proof fn law_read_variables(
    line: Seq<char>,
    names: Seq<Seq<char>>,
    vars: vars::VarsModel,
    k: int,
)
    requires
        0 <= k < names.len(),
        forall|j: int| k < j < names.len() ==> #[trigger] names[j] != names[k],
    ensures
        filled(line, names, 0, vars).value(names[k]) == share(line, names.len() as int, k),
{
    lemma_share(line, names, 0, vars, k);
}

proof fn lemma_behind(s: Seq<char>, i: int)
    requires
        0 <= i <= s.len(),
    ensures
        i <= word_end(s, i) <= s.len(),
    decreases s.len() - i,
{
    if i < s.len() && !text::whitespace(s[i]) {
        lemma_behind(s, i + 1);
    }
}

proof fn lemma_behind_words(s: Seq<char>, i: int, k: int)
    requires
        0 <= i <= s.len(),
    ensures
        i <= behind_words(s, i, k) <= s.len(),
    decreases k,
{
    if k > 0 {
        arith::lemma_runs(s, i);
        let j = arith::skip_space(s, i);
        lemma_behind(s, j);
        lemma_behind_words(s, word_end(s, j), k - 1);
    }
}

/// The words of a text begin with the one behind its leading whitespace.
proof fn lemma_first_word(s: Seq<char>, i: int)
    requires
        0 <= i <= s.len(),
    ensures
        text::words_from(s, i, Seq::empty()) == text::words_from(
            s,
            arith::skip_space(s, i),
            Seq::empty(),
        ),
    decreases s.len() - i,
{
    if i < s.len() && text::whitespace(s[i]) {
        lemma_first_word(s, i + 1);
        assert(text::nonempty(Seq::empty()) + text::words_from(s, i + 1, Seq::empty())
            =~= text::words_from(s, i + 1, Seq::empty()));
    }
}

proof fn lemma_word_goes_on(s: Seq<char>, i: int, cur: Seq<char>)
    requires
        0 <= i <= s.len(),
    ensures
        text::words_from(s, i, cur) == text::nonempty(cur + s.subrange(i, word_end(s, i)))
            + text::words_from(s, word_end(s, i), Seq::empty()),
    decreases s.len() - i,
{
    lemma_behind(s, i);
    if i < s.len() && !text::whitespace(s[i]) {
        lemma_word_goes_on(s, i + 1, cur.push(s[i]));
        lemma_behind(s, i + 1);
        assert(cur.push(s[i]) + s.subrange(i + 1, word_end(s, i)) =~= cur + s.subrange(
            i,
            word_end(s, i),
        ));
    } else {
        assert(cur + s.subrange(i, i) =~= cur);
        let none = Seq::<Seq<char>>::empty();
        assert(text::nonempty(Seq::<char>::empty()) =~= none);
        if i < s.len() {
            let later = text::words_from(s, i + 1, Seq::empty());
            assert(none + later =~= later);
        } else {
            assert(text::nonempty(cur) + none =~= text::nonempty(cur));
        }
    }
}

proof fn lemma_words_behind(s: Seq<char>, i: int, k: int)
    requires
        0 <= i <= s.len(),
        0 <= k <= text::words_from(s, i, Seq::empty()).len(),
    ensures
        text::words_from(s, behind_words(s, i, k), Seq::empty()) == text::words_from(
            s,
            i,
            Seq::empty(),
        ).skip(k),
    decreases k,
{
    let ws = text::words_from(s, i, Seq::empty());
    if k == 0 {
        assert(ws.skip(0) =~= ws);
    } else {
        arith::lemma_runs(s, i);
        let j = arith::skip_space(s, i);
        lemma_first_word(s, i);
        lemma_skipped(s, i);
        lemma_behind(s, j);
        let e = word_end(s, j);
        lemma_word_goes_on(s, j, Seq::empty());
        let first = Seq::<char>::empty() + s.subrange(j, e);
        let later = text::words_from(s, e, Seq::empty());
        if j == s.len() {
            assert(first =~= Seq::empty());
            assert(ws.len() == 0);
        } else {
            lemma_behind(s, j + 1);
            assert(first.len() > 0);
            assert(ws =~= seq![first] + later);
            lemma_words_behind(s, e, k - 1);
            assert(ws.skip(k) =~= later.skip(k - 1));
        }
    }
}

proof fn lemma_skipped(s: Seq<char>, i: int)
    requires
        0 <= i <= s.len(),
    ensures
        arith::skip_space(s, i) < s.len() ==> !text::whitespace(s[arith::skip_space(s, i)]),
    decreases s.len() - i,
{
    if i < s.len() && text::whitespace(s[i]) {
        lemma_skipped(s, i + 1);
    }
}

/// What stands behind the first `k` words of a line holds the other words.
pub proof fn law_rest_of_line(line: Seq<char>, k: int)
    requires
        0 <= k <= text::words(line).len(),
    ensures
        0 <= behind_words(line, 0, k) <= line.len(),
        text::words_from(line, behind_words(line, 0, k), Seq::empty()) == text::words(line).skip(
            k,
        ),
{
    lemma_behind_words(line, 0, k);
    lemma_words_behind(line, 0, k);
}

fn rest(line: &str, k: usize) -> (r: String)
    ensures
        r@ == rest_of_line(line@, k as int),
{
    let chars = to_chars(line);
    let n: usize = chars.len();
    let mut i: usize = 0;
    let mut left: usize = k;
    while left > 0
        invariant
            n == chars@.len(),
            i <= n,
            behind_words(chars@, 0, k as int) == behind_words(chars@, i as int, left as int),
        decreases left,
    {
        let j: usize = after_space(&chars, i);
        i = after_word(&chars, j);
        left -= 1;
    }
    let part = slice_text(&chars, i, n);
    assert(part@ =~= line@.skip(i as int));
    trim(part.as_str())
}

fn after_word(chars: &[char], from: usize) -> (r: usize)
    requires
        from <= chars@.len(),
    ensures
        r == word_end(chars@, from as int),
        from <= r <= chars@.len(),
{
    let mut i: usize = from;
    while i < chars.len() && !is_whitespace(chars[i])
        invariant
            from <= i <= chars@.len(),
            word_end(chars@, from as int) == word_end(chars@, i as int),
        decreases chars@.len() - i,
    {
        i += 1;
    }
    i
}

/// Splits a line into words and stores them in the variables: each name but
/// the last gets one word, and the last one the rest of the line.
pub fn assign_read_fields(line: &str, names: &[String], vars: &mut Vars)
    ensures
        final(vars).model() == filled(line@, text::texts(names@), 0, old(vars).model()),
{
    let words = split_words(line);
    let n: usize = names.len();
    let mut i: usize = 0;
    while i < n
        invariant
            n == names@.len(),
            i <= n,
            text::texts(words@) == text::words(line@),
            filled(line@, text::texts(names@), 0, old(vars).model()) == filled(
                line@,
                text::texts(names@),
                i as int,
                vars.model(),
            ),
        decreases n - i,
    {
        assert(text::texts(names@)[i as int] == names@[i as int]@);
        let value = if i == n - 1 {
            rest(line, i)
        } else if i < words.len() {
            assert(text::texts(words@)[i as int] == words@[i as int]@);
            words[i].clone()
        } else {
            let none = String::new();
            assert(none@ =~= Seq::<char>::empty());
            none
        };
        vars.insert(names[i].clone(), value);
        i += 1;
    }
}

// ---------------------------------------------------------------------------
// Taking a line from the input.
// ---------------------------------------------------------------------------

/// What to do after a byte was asked for.
#[derive(Debug)]
pub enum ReadStep {
    /// The reading is over.
    Finished(ReadOutcome),
    /// These bytes are read; ask for another one.
    More(Vec<u8>),
}

/// Model of a step.
pub enum ReadStepModel {
    Finished(outside::ReadModel),
    More(Seq<u8>),
}

impl ReadStep {
    pub open spec fn model(self) -> ReadStepModel {
        match self {
            ReadStep::Finished(outcome) => ReadStepModel::Finished(outcome.model()),
            ReadStep::More(bytes) => ReadStepModel::More(bytes@),
        }
    }
}

/// The step after `bytes` were read and asking for another byte gave `got`,
/// which is nothing at the end of the input. A newline ends the line, and so
/// does the end of the input unless nothing was read before it.
pub open spec fn stepped(bytes: Seq<u8>, got: Result<Option<u8>, Seq<char>>) -> ReadStepModel {
    match got {
        Err(e) => ReadStepModel::Finished(outside::ReadModel::Failed(e)),
        Ok(None) => ReadStepModel::Finished(
            if bytes.len() == 0 {
                outside::ReadModel::End
            } else {
                outside::ReadModel::Bytes(bytes)
            },
        ),
        Ok(Some(b)) => if b == 10 {
            ReadStepModel::Finished(outside::ReadModel::Bytes(bytes))
        } else {
            ReadStepModel::More(bytes.push(b))
        },
    }
}

/// Goes on after a byte of the input was asked for.
pub fn read_step(bytes: Vec<u8>, got: Result<Option<u8>, String>) -> (r: ReadStep)
    ensures
        r.model() == stepped(
            bytes@,
            match got {
                Ok(b) => Ok(b),
                Err(e) => Err(e@),
            },
        ),
{
    match got {
        Err(e) => ReadStep::Finished(ReadOutcome::Failed(e)),
        Ok(None) => if bytes.len() == 0 {
            ReadStep::Finished(ReadOutcome::End)
        } else {
            ReadStep::Finished(ReadOutcome::Bytes(bytes))
        },
        Ok(Some(b)) => if b == 10 {
            ReadStep::Finished(ReadOutcome::Bytes(bytes))
        } else {
            let mut more = bytes;
            more.push(b);
            ReadStep::More(more)
        },
    }
}

/// What the steps over an input come to, with `bytes` read before, and what of
/// the input they leave.
pub open spec fn taken(bytes: Seq<u8>, input: Seq<u8>) -> (outside::ReadModel, Seq<u8>)
    decreases input.len(),
{
    if input.len() == 0 {
        match stepped(bytes, Ok(None)) {
            ReadStepModel::Finished(outcome) => (outcome, input),
            ReadStepModel::More(_) => arbitrary(),
        }
    } else {
        match stepped(bytes, Ok(Some(input[0]))) {
            ReadStepModel::Finished(outcome) => (outcome, input.skip(1)),
            ReadStepModel::More(more) => taken(more, input.skip(1)),
        }
    }
}

proof fn lemma_taken(bytes: Seq<u8>, input: Seq<u8>, k: int)
    requires
        0 <= k <= input.len(),
        forall|j: int| 0 <= j < k ==> #[trigger] input[j] != 10,
        k < input.len() ==> input[k] == 10,
    ensures
        taken(bytes, input) == if k < input.len() {
            (outside::ReadModel::Bytes(bytes + input.take(k)), input.skip(k + 1))
        } else if bytes.len() + k == 0 {
            (outside::ReadModel::End, Seq::empty())
        } else {
            (outside::ReadModel::Bytes(bytes + input), Seq::empty())
        },
    decreases k,
{
    if k == 0 {
        assert(bytes + input.take(0) =~= bytes);
        if input.len() == 0 {
            assert(bytes + input =~= bytes);
            assert(input =~= Seq::empty());
        }
    } else {
        let rest = input.skip(1);
        assert forall|j: int| 0 <= j < k - 1 implies #[trigger] rest[j] != 10 by {
            assert(rest[j] == input[j + 1]);
        }
        lemma_taken(bytes.push(input[0]), rest, k - 1);
        assert(bytes.push(input[0]) + rest.take(k - 1) =~= bytes + input.take(k));
        assert(bytes.push(input[0]) + rest =~= bytes + input);
        if k < input.len() {
            assert(rest.skip(k) =~= input.skip(k + 1));
        }
    }
}

/// Reading takes the input up to its first newline, and leaves exactly what
/// stands behind that: `k` is the place of the newline, or the length of an
/// input without any. An input without a newline is taken whole, and one
/// without a byte is at its end.
pub proof fn law_one_line(input: Seq<u8>, k: int)
    requires
        0 <= k <= input.len(),
        forall|j: int| 0 <= j < k ==> #[trigger] input[j] != 10,
        k < input.len() ==> input[k] == 10,
    ensures
        k < input.len() ==> taken(Seq::empty(), input) == (
            outside::ReadModel::Bytes(input.take(k)),
            input.skip(k + 1),
        ),
        k == input.len() && k > 0 ==> taken(Seq::empty(), input) == (
            outside::ReadModel::Bytes(input),
            Seq::<u8>::empty(),
        ),
        input.len() == 0 ==> taken(Seq::empty(), input) == (
            outside::ReadModel::End,
            Seq::<u8>::empty(),
        ),
{
    lemma_taken(Seq::empty(), input, k);
    assert(Seq::<u8>::empty() + input.take(k) =~= input.take(k));
    assert(Seq::<u8>::empty() + input =~= input);
}

fn decode(bytes: &[u8]) -> (r: Vec<char>)
    ensures
        r@ == byte_chars(bytes@),
{
    let mut out: Vec<char> = Vec::new();
    let mut i: usize = 0;
    while i < bytes.len()
        invariant
            i <= bytes@.len(),
            out@ =~= byte_chars(bytes@).take(i as int),
        decreases bytes@.len() - i,
    {
        out.push(bytes[i] as char);
        i += 1;
    }
    assert(byte_chars(bytes@).take(i as int) =~= byte_chars(bytes@));
    out
}

fn unescape(chars: &[char]) -> (r: Vec<char>)
    ensures
        r@ == unescaped_from(chars@, 0, Seq::empty()),
{
    let n: usize = chars.len();
    let mut out: Vec<char> = Vec::new();
    let mut i: usize = 0;
    while i < n
        invariant
            n == chars@.len(),
            i <= n,
            unescaped_from(chars@, 0, Seq::empty()) == unescaped_from(chars@, i as int, out@),
        decreases n - i,
    {
        if chars[i] != '\\' {
            out.push(chars[i]);
            i += 1;
        } else if i + 1 < n {
            out.push(chars[i + 1]);
            i += 2;
        } else {
            i += 1;
        }
    }
    out
}

fn cut_line_end(chars: &[char]) -> (r: String)
    ensures
        r@ == without_line_end(chars@),
{
    let mut n: usize = chars.len();
    assert(chars@.take(n as int) =~= chars@);
    while n > 0 && (chars[n - 1] == '\n' || chars[n - 1] == '\r')
        invariant
            n <= chars@.len(),
            without_line_end(chars@) == without_line_end(chars@.take(n as int)),
        decreases n,
    {
        n -= 1;
        assert(chars@.take(n + 1).drop_last() =~= chars@.take(n as int));
    }
    assert(chars@.subrange(0, n as int) =~= chars@.take(n as int));
    slice_text(chars, 0, n)
}

/// What `read` comes to: 0 if there was a line, with the variables filled, and
/// 1 at the end of the input or where the read failed.
pub open spec fn read_end(
    raw: bool,
    names: Seq<Seq<char>>,
    outcome: outside::ReadModel,
    st: state::StateModel,
) -> (outside::StepModel, state::StateModel) {
    match outcome {
        outside::ReadModel::Failed(e) => (
            outside::ended(seq![report::complained("read: "@ + e)], 1),
            st,
        ),
        outside::ReadModel::End => (outside::ended(Seq::empty(), 1), st),
        outside::ReadModel::Bytes(bytes) => (
            outside::ended(Seq::empty(), 0),
            state::StateModel {
                vars: filled(line_of(bytes, raw), names, 0, st.vars),
                ..st
            },
        ),
    }
}

/// Finishes `read`.
pub fn finish_read(
    raw: bool,
    names: &[String],
    outcome: ReadOutcome,
    state: &mut ShellState,
) -> (r: Step)
    ensures
        (r.model(), final(state).model()) == read_end(
            raw,
            text::texts(names@),
            outcome.model(),
            old(state).model(),
        ),
{
    match outcome {
        ReadOutcome::Failed(e) => {
            let mut lines = no_lines();
            complain(&mut lines, concat("read: ", e.as_str()));
            let r = end(lines, 1);
            assert(r.model().lines =~= seq![report::complained("read: "@ + e@)]);
            r
        },
        ReadOutcome::End => end(no_lines(), 1),
        ReadOutcome::Bytes(bytes) => {
            let mut chars = decode(&bytes);
            if !raw {
                chars = unescape(&chars);
            }
            let line = cut_line_end(&chars);
            assign_read_fields(line.as_str(), names, &mut state.vars);
            end(no_lines(), 0)
        },
    }
}

/// `read` on an input with a line in it fills the variables from the first
/// line, ends with 0, and leaves what stands behind the line; on an input at
/// its end it ends with 1 and changes nothing.
pub proof fn law_read(
    input: Seq<u8>,
    k: int,
    raw: bool,
    names: Seq<Seq<char>>,
    st: state::StateModel,
)
    requires
        0 <= k <= input.len(),
        forall|j: int| 0 <= j < k ==> #[trigger] input[j] != 10,
        k < input.len() ==> input[k] == 10,
    ensures
        ({
            let (outcome, left) = taken(Seq::empty(), input);
            if input.len() == 0 {
                &&& read_end(raw, names, outcome, st) == (outside::ended(Seq::empty(), 1), st)
                &&& left == Seq::<u8>::empty()
            } else {
                &&& read_end(raw, names, outcome, st).0 == outside::ended(Seq::empty(), 0)
                &&& read_end(raw, names, outcome, st).1 == (state::StateModel {
                    vars: filled(line_of(input.take(k), raw), names, 0, st.vars),
                    ..st
                })
                &&& left == if k < input.len() {
                    input.skip(k + 1)
                } else {
                    Seq::empty()
                }
            }
        }),
{
    law_one_line(input, k);
    assert(input.take(input.len() as int) =~= input);
}

} // verus!
