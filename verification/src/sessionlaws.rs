//! Laws of a session: its prompt, its input, completion, and `read`.

use crate::arith;
use crate::builtinlaws;
use crate::builtins;
use crate::completion;
use crate::completion::DirEntry;
use crate::executor;
use crate::machine;
use crate::outside;
use crate::readcmd;
use crate::session;
use crate::state;
use crate::table;
use crate::text;
use crate::textlaws;
use crate::tokenizer;
use crate::wordlaws;
use vstd::prelude::*;

verus! {

// ---------------------------------------------------------------------------
// The prompt and the input.
// ---------------------------------------------------------------------------

/// A path in the home directory is shown with `~` in its place, and so is the
/// home directory itself; any other path is shown as it is, also one that only
/// begins with the same characters.
pub proof fn law_home_is_shortened(home: Seq<char>, rest: Seq<char>, path: Seq<char>)
    ensures
        rest.len() == 0 || rest[0] == '/' ==> session::shortened(home + rest, Some(home))
            == seq!['~'] + rest,
        rest.len() > 0 && rest[0] != '/' ==> session::shortened(home + rest, Some(home)) == home
            + rest,
        !text::begins_with(path, home) ==> session::shortened(path, Some(home)) == path,
        session::shortened(path, None) == path,
{
    reveal_strlit("~");
    assert("~"@ =~= seq!['~']);
    textlaws::law_begins_with(path, home, rest);
    assert((home + rest).skip(home.len() as int) =~= rest);
    assert(rest.len() == 0 ==> seq!['~'] + rest =~= "~"@);
}

/// The prompt names the working directory and ends in `$` exactly if the last
/// command succeeded.
pub proof fn law_prompt(st: state::StateModel, dir: Seq<char>)
    ensures
        ({
            let shown = session::shortened(dir, table::lookup(st.vars.env, "HOME"@));
            let marker = if st.last_status == 0 {
                '$'
            } else {
                '✗'
            };
            &&& session::prompt_text(st, Some(dir)) == seq!['r', 's', 'h', ':'] + shown + seq![
                ' ',
                marker,
                ' ',
            ]
            &&& session::prompt_text(st, None) == seq!['r', 's', 'h', ':', '?', ' ', marker, ' ']
        }),
{
    reveal_strlit("rsh:");
    reveal_strlit("?");
    reveal_strlit(" ");
    reveal_strlit("$");
    reveal_strlit("✗");
    let shown = session::shortened(dir, table::lookup(st.vars.env, "HOME"@));
    let marker = if st.last_status == 0 {
        '$'
    } else {
        '✗'
    };
    assert(session::prompt_text(st, Some(dir)) =~= seq!['r', 's', 'h', ':'] + shown + seq![
        ' ',
        marker,
        ' ',
    ]);
    assert(session::prompt_text(st, None) =~= seq!['r', 's', 'h', ':', '?', ' ', marker, ' ']);
}

/// The history is a file of the same name wherever it is kept: in the home
/// directory, or in the working directory where there is none.
pub proof fn law_history(home: Seq<char>)
    ensures
        session::history_path(Some(home)) == home + seq!['/'] + session::history_path(None),
        session::history_path(None) == ".rsh_history"@,
{
    reveal_strlit("/.rsh_history");
    reveal_strlit(".rsh_history");
    assert("/.rsh_history"@ =~= seq!['/'] + ".rsh_history"@);
    assert(home + "/.rsh_history"@ =~= home + seq!['/'] + ".rsh_history"@);
}

/// A line of whitespace is blank. Any other is what it is without the
/// whitespace around it: the program that it denotes, or an error that tells
/// where it comes from.
pub proof fn law_input(pre: Seq<char>, t: Seq<char>, post: Seq<char>)
    requires
        textlaws::blank(pre),
        textlaws::blank(post),
        t.len() > 0,
        !text::whitespace(t[0]),
        !text::whitespace(t.last()),
    ensures
        session::input_of(pre) == session::InputModel::Blank,
        executor::program(t) matches Ok(jobs) ==> session::input_of(pre + t + post)
            == (session::InputModel::Program { entry: t, jobs }),
        tokenizer::tokens_of(t) matches Err(e) ==> session::input_of(pre + t + post)
            == (session::InputModel::Malformed {
            entry: t,
            message: "rsh: lexical error: "@ + e,
        }),
        tokenizer::tokens_of(t) is Ok && executor::program(t) is Err ==> session::input_of(
            pre + t + post,
        ) == (session::InputModel::Malformed {
            entry: t,
            message: "rsh: syntax error: "@ + executor::program(t)->Err_0,
        }),
{
    textlaws::law_trimmed(pre, t, post);
}

// ---------------------------------------------------------------------------
// Completion.
// ---------------------------------------------------------------------------

proof fn lemma_words_offered(
    words: Seq<Seq<char>>,
    i: int,
    prefix: Seq<char>,
    acc: Seq<Seq<char>>,
    w: Seq<char>,
)
    requires
        0 <= i <= words.len(),
    ensures
        completion::words_with(words, i, prefix, acc).contains(w) <==> acc.contains(w) || exists|
            k: int,
        |
            i <= k < words.len() && #[trigger] words[k] == w && text::begins_with(w, prefix),
    decreases words.len() - i,
{
    if i < words.len() {
        if text::begins_with(words[i], prefix) {
            let more = acc.push(words[i]);
            lemma_words_offered(words, i + 1, prefix, more, w);
            lemma_pushed(acc, words[i], w);
        } else {
            lemma_words_offered(words, i + 1, prefix, acc, w);
        }
    }
}

proof fn lemma_pushed(acc: Seq<Seq<char>>, x: Seq<char>, w: Seq<char>)
    ensures
        acc.push(x).contains(w) <==> acc.contains(w) || x == w,
{
    let more = acc.push(x);
    if more.contains(w) {
        let k = choose|k: int| 0 <= k < more.len() && more[k] == w;
        if k < acc.len() {
            assert(acc[k] == w);
        }
    }
    if acc.contains(w) {
        let k = choose|k: int| 0 <= k < acc.len() && acc[k] == w;
        assert(more[k] == w);
    }
    assert(more[acc.len() as int] == x);
}

/// Anyone may execute the entry: its owner, its group or the others.
pub open spec fn runnable(e: DirEntry) -> bool {
    e.mode matches Some(m) && (m & 0o100 != 0 || m & 0o010 != 0 || m & 0o001 != 0)
}

proof fn lemma_runnable(e: DirEntry)
    ensures
        completion::executable(e) <==> runnable(e),
{
    if let Some(m) = e.mode {
        assert(m & 0o111 != 0 <==> m & 0o100 != 0 || m & 0o010 != 0 || m & 0o001 != 0)
            by (bit_vector);
    }
}

proof fn lemma_programs_offered(
    entries: Seq<DirEntry>,
    i: int,
    prefix: Seq<char>,
    acc: Seq<Seq<char>>,
    w: Seq<char>,
)
    requires
        0 <= i <= entries.len(),
    ensures
        completion::programs_with(entries, i, prefix, acc).contains(w) <==> acc.contains(w)
            || exists|k: int|
            i <= k < entries.len() && (#[trigger] entries[k]).name@ == w && runnable(entries[k])
                && text::begins_with(w, prefix),
    decreases entries.len() - i,
{
    if i < entries.len() {
        lemma_runnable(entries[i]);
        let name = entries[i].name@;
        if text::begins_with(name, prefix) && completion::executable(entries[i]) {
            lemma_programs_offered(entries, i + 1, prefix, acc.push(name), w);
            lemma_pushed(acc, name, w);
        } else {
            lemma_programs_offered(entries, i + 1, prefix, acc, w);
        }
    }
}

/// A prefix is completed as a path exactly if it begins with `/`, `.` or `~`,
/// or a `/` stands in it.
pub proof fn law_paths_are_told_apart(prefix: Seq<char>)
    ensures
        completion::path_like(prefix) <==> prefix.contains('/') || (prefix.len() > 0 && (prefix[0]
            == '.' || prefix[0] == '~')),
{
    if !prefix.contains('/') {
        assert forall|k: int| 0 <= k < prefix.len() implies #[trigger] prefix[k] != '/' by {
            assert(prefix.contains(prefix[k]));
        }
        textlaws::law_split(prefix, '/', Seq::empty());
    } else {
        let k = choose|k: int| 0 <= k < prefix.len() && prefix[k] == '/';
        lemma_slash_found(prefix, 0, k);
    }
}

proof fn lemma_slash_found(s: Seq<char>, i: int, k: int)
    requires
        0 <= i <= k < s.len(),
        s[k] == '/',
    ensures
        text::find_char(s, i, '/') is Some,
    decreases k - i,
{
    if i < k && s[i] != '/' {
        lemma_slash_found(s, i + 1, k);
    }
}

/// What is offered for a command: the words of the shell and the executable
/// entries that begin with the prefix, each of them, and nothing else.
pub proof fn law_commands_offered(prefix: Seq<char>, entries: Seq<DirEntry>, w: Seq<char>)
    requires
        !completion::path_like(prefix),
    ensures
        completion::completions(prefix, entries).contains(w) <==> text::begins_with(w, prefix) && (
        completion::shell_words().contains(w) || exists|k: int|
            0 <= k < entries.len() && (#[trigger] entries[k]).name@ == w && runnable(entries[k])),
{
    let words = completion::shell_words();
    let none = Seq::<Seq<char>>::empty();
    let first = completion::words_with(words, 0, prefix, none);
    lemma_words_offered(words, 0, prefix, none, w);
    lemma_programs_offered(entries, 0, prefix, first, w);
    if words.contains(w) {
        let k = choose|k: int| 0 <= k < words.len() && words[k] == w;
        assert(words[k] == w);
    }
}

proof fn lemma_last_slash(s: Seq<char>, n: int)
    requires
        0 <= n <= s.len(),
    ensures
        0 <= completion::dir_len(s, n) <= n,
        completion::dir_len(s, n) > 0 ==> s[completion::dir_len(s, n) - 1] == '/',
        forall|k: int| completion::dir_len(s, n) <= k < n ==> #[trigger] s[k] != '/',
    decreases n,
{
    if n > 0 && s[n - 1] != '/' {
        lemma_last_slash(s, n - 1);
    }
}

/// A path falls into its directory, which is empty or ends in `/`, and a name
/// without any.
pub proof fn law_path_parts(s: Seq<char>)
    ensures
        ({
            let (dir, base) = completion::path_parts(s);
            &&& dir + base == s
            &&& dir.len() > 0 ==> dir.last() == '/'
            &&& textlaws::lacks(base, '/')
        }),
{
    let n = completion::dir_len(s, s.len() as int);
    lemma_last_slash(s, s.len() as int);
    assert(s.take(n) + s.skip(n) =~= s);
}

proof fn lemma_paths_offered(
    entries: Seq<DirEntry>,
    i: int,
    dir: Seq<char>,
    base: Seq<char>,
    acc: Seq<Seq<char>>,
    w: Seq<char>,
)
    requires
        0 <= i <= entries.len(),
    ensures
        completion::paths_with(entries, i, dir, base, acc).contains(w) <==> acc.contains(w)
            || exists|k: int|
            i <= k < entries.len() && text::begins_with((#[trigger] entries[k]).name@, base) && w
                == shown(dir, entries[k]),
    decreases entries.len() - i,
{
    if i < entries.len() {
        reveal_strlit("/");
        assert("/"@ =~= seq!['/']);
        let e = entries[i];
        if text::begins_with(e.name@, base) {
            let x = if e.is_dir {
                dir + e.name@ + "/"@
            } else {
                dir + e.name@
            };
            assert(x =~= shown(dir, e));
            lemma_paths_offered(entries, i + 1, dir, base, acc.push(x), w);
            lemma_pushed(acc, x, w);
        } else {
            lemma_paths_offered(entries, i + 1, dir, base, acc, w);
        }
    }
}

/// An entry behind its directory, with a `/` at the end if it is a directory
/// itself.
pub open spec fn shown(dir: Seq<char>, e: DirEntry) -> Seq<char> {
    dir + e.name@ + if e.is_dir {
        seq!['/']
    } else {
        Seq::empty()
    }
}

/// What is offered for a path: the entries that begin like its name, each of
/// them behind its directory, and nothing else.
pub proof fn law_paths_offered(
    dir: Seq<char>,
    base: Seq<char>,
    entries: Seq<DirEntry>,
    w: Seq<char>,
)
    requires
        completion::path_like(dir + base),
        dir.len() > 0 ==> dir.last() == '/',
        textlaws::lacks(base, '/'),
    ensures
        completion::completions(dir + base, entries).contains(w) <==> exists|k: int|
            0 <= k < entries.len() && text::begins_with((#[trigger] entries[k]).name@, base) && w
                == shown(dir, entries[k]),
{
    let s = dir + base;
    let n = completion::dir_len(s, s.len() as int);
    lemma_last_slash(s, s.len() as int);
    assert(n == dir.len()) by {
        if n < dir.len() {
            assert(s[dir.len() - 1] == dir.last());
        }
        if n > dir.len() {
            assert(s[n - 1] == base[n - 1 - dir.len()]);
        }
    }
    assert(s.take(n) =~= dir);
    assert(s.skip(n) =~= base);
    lemma_paths_offered(entries, 0, dir, base, Seq::empty(), w);
}

proof fn lemma_programs_push(
    entries: Seq<DirEntry>,
    e: DirEntry,
    i: int,
    prefix: Seq<char>,
    acc: Seq<Seq<char>>,
)
    requires
        0 <= i <= entries.len(),
    ensures
        completion::programs_with(entries.push(e), i, prefix, acc) == if text::begins_with(
            e.name@,
            prefix,
        ) && runnable(e) {
            completion::programs_with(entries, i, prefix, acc).push(e.name@)
        } else {
            completion::programs_with(entries, i, prefix, acc)
        },
    decreases entries.len() - i,
{
    let more = entries.push(e);
    reveal_with_fuel(completion::programs_with, 2);
    lemma_runnable(e);
    if i < entries.len() {
        assert(more[i] == entries[i]);
        if text::begins_with(entries[i].name@, prefix) && completion::executable(entries[i]) {
            lemma_programs_push(entries, e, i + 1, prefix, acc.push(entries[i].name@));
        } else {
            lemma_programs_push(entries, e, i + 1, prefix, acc);
        }
    } else {
        assert(more[i] == e);
    }
}

proof fn lemma_paths_push(
    entries: Seq<DirEntry>,
    e: DirEntry,
    i: int,
    dir: Seq<char>,
    base: Seq<char>,
    acc: Seq<Seq<char>>,
)
    requires
        0 <= i <= entries.len(),
    ensures
        completion::paths_with(entries.push(e), i, dir, base, acc) == if text::begins_with(
            e.name@,
            base,
        ) {
            completion::paths_with(entries, i, dir, base, acc).push(shown(dir, e))
        } else {
            completion::paths_with(entries, i, dir, base, acc)
        },
    decreases entries.len() - i,
{
    let more = entries.push(e);
    reveal_with_fuel(completion::paths_with, 2);
    reveal_strlit("/");
    assert("/"@ =~= seq!['/']);
    if i < entries.len() {
        assert(more[i] == entries[i]);
        let f = entries[i];
        if text::begins_with(f.name@, base) {
            let x = if f.is_dir {
                dir + f.name@ + "/"@
            } else {
                dir + f.name@
            };
            lemma_paths_push(entries, e, i + 1, dir, base, acc.push(x));
        } else {
            lemma_paths_push(entries, e, i + 1, dir, base, acc);
        }
    } else {
        assert(more[i] == e);
        assert(e.is_dir ==> dir + e.name@ + "/"@ =~= shown(dir, e));
        assert(!e.is_dir ==> dir + e.name@ =~= shown(dir, e));
    }
}

/// Candidates are offered in the order in which the entries are found, behind
/// the words of the shell: one more entry adds its candidate at the end, or
/// none.
pub proof fn law_candidates_in_order(prefix: Seq<char>, entries: Seq<DirEntry>, e: DirEntry)
    ensures
        ({
            let before = completion::completions(prefix, entries);
            let after = completion::completions(prefix, entries.push(e));
            if completion::path_like(prefix) {
                let (dir, base) = completion::path_parts(prefix);
                after == if text::begins_with(e.name@, base) {
                    before.push(shown(dir, e))
                } else {
                    before
                }
            } else {
                after == if text::begins_with(e.name@, prefix) && runnable(e) {
                    before.push(e.name@)
                } else {
                    before
                }
            }
        }),
        completion::path_like(prefix) ==> completion::completions(prefix, Seq::empty()).len() == 0,
{
    if completion::path_like(prefix) {
        let (dir, base) = completion::path_parts(prefix);
        lemma_paths_push(entries, e, 0, dir, base, Seq::empty());
    } else {
        let words = completion::words_with(completion::shell_words(), 0, prefix, Seq::empty());
        lemma_programs_push(entries, e, 0, prefix, words);
    }
}

/// The directory that is listed for a path: the working directory where it
/// names none, what stands behind `~/` in the home directory, and any other as
/// it is written.
pub proof fn law_listed_directories(home: Seq<char>, rest: Seq<char>, dir: Seq<char>)
    requires
        home.len() > 0,
        home.last() != '/',
        rest.len() > 0 ==> rest[0] != '/',
    ensures
        completion::listed_dir(Seq::empty(), Some(home)) == seq!['.'],
        completion::listed_dir(seq!['~', '/'] + rest, Some(home)) == home + seq!['/'] + rest,
        dir.len() > 0 && dir[0] != '~' ==> completion::listed_dir(dir, Some(home)) == dir,
        dir.len() > 0 ==> completion::listed_dir(dir, None) == dir,
{
    reveal_strlit(".");
    reveal_strlit("/");
    assert("."@ =~= seq!['.']);
    assert("/"@ =~= seq!['/']);
    assert((seq!['~', '/'] + rest).skip(2) =~= rest);
}

// ---------------------------------------------------------------------------
// read.
// ---------------------------------------------------------------------------

proof fn lemma_names_push(args: Seq<Seq<char>>, x: Seq<char>, i: int, acc: Seq<Seq<char>>)
    requires
        0 <= i <= args.len(),
    ensures
        readcmd::names_from(args.push(x), i, acc) == if x.len() > 0 && x[0] == '-' {
            readcmd::names_from(args, i, acc)
        } else {
            readcmd::names_from(args, i, acc).push(x)
        },
        readcmd::raw_from(args.push(x), i) == (readcmd::raw_from(args, i) || x == "-r"@),
    decreases args.len() - i,
{
    let more = args.push(x);
    reveal_with_fuel(readcmd::names_from, 2);
    reveal_with_fuel(readcmd::raw_from, 2);
    if i < args.len() {
        assert(more[i] == args[i]);
        if args[i].len() > 0 && args[i][0] == '-' {
            lemma_names_push(args, x, i + 1, acc);
        } else {
            lemma_names_push(args, x, i + 1, acc.push(args[i]));
        }
    } else {
        assert(more[i] == x);
    }
}

/// `read` asks for a line: raw exactly if `-r` is among its operands, and for
/// the names that are no flags, in order, or for `REPLY` where there is none.
pub proof fn law_read_operands(names: Seq<Seq<char>>, x: Seq<char>, st: state::StateModel)
    requires
        forall|k: int| 0 <= k < names.len() ==> (#[trigger] names[k]).len() > 0 && names[k][0]
            != '-',
        x.len() > 0 && x[0] == '-',
    ensures
        ({
            let asked = |args: Seq<Seq<char>>, raw: bool, wanted: Seq<Seq<char>>|
                builtins::builtin_step(args, st).0.next == outside::NextModel::Ask(
                    outside::RequestModel::ReadLine { raw, names: wanted },
                );
            let wanted = if names.len() == 0 {
                seq!["REPLY"@]
            } else {
                names
            };
            &&& asked(seq!["read"@] + names, false, wanted)
            &&& asked((seq!["read"@] + names).push(x), x == "-r"@, wanted)
        }),
{
    builtinlaws::lemma_builtin_names();
    reveal_strlit("-r");
    lemma_named(names);
    let args = seq!["read"@] + names;
    lemma_names_push(args, x, 1, Seq::empty());
    assert(args.push(x)[0] == "read"@);
}

proof fn lemma_named(names: Seq<Seq<char>>)
    requires
        forall|k: int| 0 <= k < names.len() ==> (#[trigger] names[k]).len() > 0 && names[k][0]
            != '-',
    ensures
        readcmd::names_from(seq!["read"@] + names, 1, Seq::empty()) == names,
        !readcmd::raw_from(seq!["read"@] + names, 1),
    decreases names.len(),
{
    reveal_strlit("-r");
    if names.len() == 0 {
        assert(readcmd::names_from(seq!["read"@] + names, 1, Seq::empty()) =~= names);
    } else {
        let shorter = names.drop_last();
        let x = names.last();
        assert forall|k: int| 0 <= k < shorter.len() implies (#[trigger] shorter[k]).len() > 0
            && shorter[k][0] != '-' by {
            assert(shorter[k] == names[k]);
        }
        lemma_named(shorter);
        assert(seq!["read"@] + names =~= (seq!["read"@] + shorter).push(x));
        lemma_names_push(seq!["read"@] + shorter, x, 1, Seq::empty());
        assert(shorter.push(x) =~= names);
        assert(x == names[names.len() - 1]);
        assert("-r"@[0] == '-');
    }
}

proof fn lemma_unescape_plain(a: Seq<char>, b: Seq<char>, i: int, acc: Seq<char>)
    requires
        textlaws::lacks(a, '\\'),
        0 <= i <= a.len(),
    ensures
        readcmd::unescaped_from(a + b, i, acc) == readcmd::unescaped_from(
            a + b,
            a.len() as int,
            acc + a.skip(i),
        ),
    decreases a.len() - i,
{
    if i < a.len() {
        assert((a + b)[i] == a[i]);
        lemma_unescape_plain(a, b, i + 1, acc.push(a[i]));
        assert(acc.push(a[i]) + a.skip(i + 1) =~= acc + a.skip(i));
    } else {
        assert(acc + a.skip(i) =~= acc);
    }
}

proof fn lemma_unescape_shift(pre: Seq<char>, b: Seq<char>, i: int, front: Seq<char>, acc: Seq<char>)
    requires
        0 <= i <= b.len(),
    ensures
        readcmd::unescaped_from(pre + b, pre.len() + i, front + acc) == front
            + readcmd::unescaped_from(b, i, acc),
    decreases b.len() - i,
{
    let s = pre + b;
    if i < b.len() {
        assert(s[pre.len() + i] == b[i]);
        if b[i] != '\\' {
            lemma_unescape_shift(pre, b, i + 1, front, acc.push(b[i]));
            assert((front + acc).push(b[i]) =~= front + acc.push(b[i]));
        } else if i + 1 < b.len() {
            assert(s[pre.len() + i + 1] == b[i + 1]);
            lemma_unescape_shift(pre, b, i + 2, front, acc.push(b[i + 1]));
            assert((front + acc).push(b[i + 1]) =~= front + acc.push(b[i + 1]));
        }
    }
}

/// Without `-r` a backslash in a line is dropped and the character behind it
/// kept, whatever it is; with `-r` the line is kept as it is. In a line without
/// a backslash the two are the same.
pub proof fn law_read_escapes(a: Seq<char>, c: char, b: Seq<char>)
    requires
        textlaws::lacks(a, '\\'),
    ensures
        readcmd::unescaped_from(a, 0, Seq::empty()) == a,
        readcmd::unescaped_from(a + seq!['\\', c] + b, 0, Seq::empty()) == a + seq![c]
            + readcmd::unescaped_from(b, 0, Seq::empty()),
{
    let none = Seq::<char>::empty();
    assert(a + none =~= a);
    lemma_unescape_plain(a, none, 0, none);
    assert(a.skip(0) =~= a);
    assert(none + a =~= a);
    let s = a + seq!['\\', c] + b;
    assert(s =~= a + (seq!['\\', c] + b));
    lemma_unescape_plain(a, seq!['\\', c] + b, 0, none);
    let at = a.len() as int;
    assert(s[at] == '\\' && s[at + 1] == c);
    assert(readcmd::unescaped_from(s, at, a) == readcmd::unescaped_from(s, at + 2, a.push(c)));
    assert(s =~= (a + seq!['\\', c]) + b);
    lemma_unescape_shift(a + seq!['\\', c], b, 0, a.push(c), none);
    assert(a.push(c) + none =~= a.push(c));
    assert(a.push(c) =~= a + seq![c]);
}

/// The line end goes, and nothing else: a raw line is its bytes without the
/// newlines and carriage returns at the end.
pub proof fn law_line_ends(bytes: Seq<u8>, b: u8)
    requires
        forall|k: int| 0 <= k < bytes.len() ==> #[trigger] bytes[k] < 0x80,
        b < 0x80,
    ensures
        readcmd::line_of(Seq::empty(), true).len() == 0,
        b == 10 || b == 13 ==> readcmd::line_of(bytes.push(b), true) == readcmd::line_of(
            bytes,
            true,
        ),
        b != 10 && b != 13 ==> readcmd::line_of(bytes.push(b), true) == readcmd::byte_chars(
            bytes,
        ).push(b as char),
{
    let chars = readcmd::byte_chars(bytes);
    assert(readcmd::byte_chars(bytes.push(b)) =~= chars.push(b as char));
    assert(chars.push(b as char).drop_last() =~= chars);
    assert(readcmd::byte_chars(Seq::empty()) =~= Seq::empty());
}

proof fn lemma_word_ends(w: Seq<char>, c: char, r: Seq<char>, i: int)
    requires
        wordlaws::spaceless(w),
        text::whitespace(c),
        0 <= i <= w.len(),
    ensures
        readcmd::word_end(w + seq![c] + r, i) == w.len(),
    decreases w.len() - i,
{
    let s = w + seq![c] + r;
    if i < w.len() {
        assert(s[i] == w[i]);
        lemma_word_ends(w, c, r, i + 1);
    } else {
        assert(s[i] == c);
    }
}

/// One name gets the whole line, trimmed. Of two names the first gets the first
/// word of the line, and the second the rest of it, trimmed, as it stands.
pub proof fn law_read_shares(w: Seq<char>, c: char, r: Seq<char>, line: Seq<char>)
    requires
        w.len() > 0,
        wordlaws::spaceless(w),
        text::whitespace(c),
        text::words(r).len() > 0,
    ensures
        readcmd::share(line, 1, 0) == text::trimmed(line),
        readcmd::share(w + seq![c] + r, 2, 0) == w,
        readcmd::share(w + seq![c] + r, 2, 1) == text::trimmed(seq![c] + r),
        text::trimmed(seq![c] + r) == text::trimmed(r),
{
    let s = w + seq![c] + r;
    reveal_with_fuel(readcmd::behind_words, 3);
    assert(line.skip(0) =~= line);
    textlaws::law_words(w, c, r);
    assert(text::words(s) == seq![w] + text::words(r));
    assert(text::words(s)[0] == w);
    assert(s[0] == w[0]);
    assert(arith::skip_space(s, 0) == 0);
    lemma_word_ends(w, c, r, 0);
    assert(readcmd::behind_words(s, 0, 1) == w.len());
    assert(s.skip(w.len() as int) =~= seq![c] + r);
    assert((seq![c] + r)[0] == c);
    assert((seq![c] + r).skip(1) =~= r);
}

/// Of several names each one but the last gets the word at its place, and
/// nothing where the line has no such word.
pub proof fn law_read_words(line: Seq<char>, n: int, k: int)
    requires
        0 <= k < n - 1,
    ensures
        k < text::words(line).len() ==> readcmd::share(line, n, k) == text::words(line)[k],
        k >= text::words(line).len() ==> readcmd::share(line, n, k).len() == 0,
{
}

/// A read that fails is reported, with status 1, and fills nothing.
pub proof fn law_failed_reads(
    raw: bool,
    names: Seq<Seq<char>>,
    e: Seq<char>,
    st: state::StateModel,
)
    ensures
        ({
            let (step, done) = builtins::builtin_end(
                outside::RequestModel::ReadLine { raw, names },
                outside::ReplyModel::Read(outside::ReadModel::Failed(e)),
                st,
            );
            &&& builtinlaws::wrote(step, true, "read: "@ + e, 1)
            &&& done == st
        }),
{
    let m = "read: "@ + e;
    assert(m.push('\n') =~= m + seq!['\n']);
}

// ---------------------------------------------------------------------------
// Bytes, progress and new shells.
// ---------------------------------------------------------------------------

/// Positions in a line count bytes: a character takes one byte up to seven
/// bits, two up to eleven, three up to sixteen and four beyond, and a position
/// is the sum of what stands before it.
pub proof fn law_byte_positions(s: Seq<char>, c: char)
    ensures
        completion::byte_offset(s, 0) == 0,
        completion::byte_offset(s.push(c), (s.len() + 1) as int) == completion::byte_offset(
            s,
            s.len() as int,
        ) + if (c as u32) < 0x80 {
            1int
        } else if (c as u32) < 0x800 {
            2int
        } else if (c as u32) < 0x10000 {
            3int
        } else {
            4int
        },
{
    lemma_offset_prefix(s, c, s.len() as int);
}

proof fn lemma_offset_prefix(s: Seq<char>, c: char, n: int)
    requires
        0 <= n <= s.len(),
    ensures
        completion::byte_offset(s.push(c), n) == completion::byte_offset(s, n),
    decreases n,
{
    if n > 0 {
        lemma_offset_prefix(s, c, n - 1);
        assert(s.push(c)[n - 1] == s[n - 1]);
    }
}

/// A run is reported as finished exactly if it is over, with the status to exit
/// with, if any, and everything that is still to be written; otherwise what is
/// handed back goes on where it stopped.
pub proof fn law_progress(p: executor::Progress, st: state::StateModel, c: machine::Config)
    requires
        executor::progress_of(p, st, c),
    ensures
        c.st == st,
        p is Finished <==> c.control is Over,
        p matches executor::Progress::Finished(exit, lines) ==> c.control
            == machine::ControlModel::Over(exit) && lines@.len() == c.lines.len() && forall|k: int|
            0 <= k < lines@.len() ==> (#[trigger] lines@[k]).error == c.lines[k].error
                && lines@[k].text@ == c.lines[k].text,
        p matches executor::Progress::Going(m) ==> m.control.model() == c.control
            && m.frames@.len() == c.frames.len() && m.lines@.len() == c.lines.len(),
{
    match p {
        executor::Progress::Finished(_, lines) => {
            assert forall|k: int| 0 <= k < lines@.len() implies (#[trigger] lines@[k]).error
                == c.lines[k].error && lines@[k].text@ == c.lines[k].text by {
                assert(c.lines[k] == lines@[k].model());
            }
        },
        executor::Progress::Going(_) => {},
    }
}

/// A new shell has succeeded so far, knows no variables, aliases, functions,
/// parameters, jobs and directory before, and numbers its jobs from 1.
pub proof fn law_new_shells(command: Seq<char>, pid: i32)
    ensures
        ({
            let st = state::StateModel::fresh();
            let one = st.with_job(command, pid);
            &&& st.last_status == 0
            &&& st.vars.shell.len() == 0
            &&& st.vars.env.len() == 0
            &&& st.vars.notices.len() == 0
            &&& st.aliases.len() == 0
            &&& st.functions.len() == 0
            &&& st.positional.len() == 0
            &&& st.prev_dir is None
            &&& st.jobs.len() == 0
            &&& one.jobs.len() == 1
            &&& one.jobs[0].id == 1
            &&& one.jobs[0].pid == pid
            &&& one.jobs[0].command == command
            &&& !one.jobs[0].stopped
        }),
{
}

} // verus!
