//! Tab completion: which word is completed, and what it may become.

use crate::builtins;
use crate::builtins::join_path;
use crate::report::{concat, concat3};
use crate::testcmd;
use crate::testcmd::{file_mode_check, TestPath};
use crate::text;
use crate::text::{first_is, is_whitespace, position, slice_text, to_chars};
use vstd::prelude::*;

verus! {

// ---------------------------------------------------------------------------
// The word under the cursor.
// ---------------------------------------------------------------------------

/// The number of bytes of a character in UTF-8.
pub open spec fn utf8_len(c: char) -> int {
    if (c as u32) < 0x80 {
        1
    } else if (c as u32) < 0x800 {
        2
    } else if (c as u32) < 0x10000 {
        3
    } else {
        4
    }
}

/// The byte position of the `k`th character.
pub open spec fn byte_offset(s: Seq<char>, k: int) -> int
    decreases k,
{
    if k <= 0 {
        0
    } else {
        byte_offset(s, k - 1) + utf8_len(s[k - 1])
    }
}

/// A character that separates words on the command line.
pub open spec fn separates(c: char) -> bool {
    text::whitespace(c) || c == '|' || c == ';' || c == '&' || c == '<' || c == '>' || c == '('
        || c == ')'
}

/// The byte position behind the last separator among the characters from the
/// `i`th on that end at or before `pos`, or `start`.
pub open spec fn start_from(s: Seq<char>, i: int, start: int, pos: int) -> int
    decreases s.len() - i,
{
    if i < 0 || i >= s.len() || byte_offset(s, i + 1) > pos {
        start
    } else if separates(s[i]) {
        start_from(s, i + 1, byte_offset(s, i + 1), pos)
    } else {
        start_from(s, i + 1, start, pos)
    }
}

fn bytes_of(c: char) -> (r: usize)
    ensures
        r == utf8_len(c),
{
    if (c as u32) < 0x80 {
        1
    } else if (c as u32) < 0x800 {
        2
    } else if (c as u32) < 0x10000 {
        3
    } else {
        4
    }
}

/// The byte position at which the word before the cursor begins, the cursor
/// being at the byte position `pos`.
pub fn word_start(line: &str, pos: usize) -> (r: usize)
    ensures
        r == start_from(line@, 0, 0, pos as int),
        r <= pos,
{
    let chars = to_chars(line);
    let mut start: usize = 0;
    let mut offset: usize = 0;
    let mut i: usize = 0;
    while i < chars.len()
        invariant
            i <= chars@.len(),
            chars@ == line@,
            offset == byte_offset(line@, i as int),
            start <= offset <= pos,
            start_from(line@, 0, 0, pos as int) == start_from(
                line@,
                i as int,
                start as int,
                pos as int,
            ),
        decreases chars@.len() - i,
    {
        let c = chars[i];
        let len: usize = bytes_of(c);
        if pos - offset < len {
            return start;
        }
        offset += len;
        if is_whitespace(c) || c == '|' || c == ';' || c == '&' || c == '<' || c == '>' || c
            == '(' || c == ')' {
            start = offset;
        }
        i += 1;
    }
    start
}

/// The word begins at the start of the line or right behind a separator, and
/// no separator stands between its beginning and the cursor.
pub proof fn law_word_start(s: Seq<char>, k: int)
    requires
        0 <= k <= s.len(),
    ensures
        exists|j: int|
            0 <= j <= k && #[trigger] byte_offset(s, j) == start_from(s, 0, 0, byte_offset(s, k))
                && (j == 0 || separates(s[j - 1])) && forall|m: int|
                j <= m < k ==> !separates(#[trigger] s[m]),
{
    lemma_start_from(s, 0, 0, k);
}

proof fn lemma_start_from(s: Seq<char>, i: int, j: int, k: int)
    requires
        0 <= j <= i <= k <= s.len(),
        j == 0 || separates(s[j - 1]),
        forall|m: int| j <= m < i ==> !separates(#[trigger] s[m]),
    ensures
        exists|n: int|
            0 <= n <= k && #[trigger] byte_offset(s, n) == start_from(
                s,
                i,
                byte_offset(s, j),
                byte_offset(s, k),
            ) && (n == 0 || separates(s[n - 1])) && forall|m: int|
                n <= m < k ==> !separates(#[trigger] s[m]),
    decreases k - i,
{
    lemma_offsets(s, i, k);
    if i == k {
        if i < s.len() {
            lemma_offsets(s, k, k + 1);
        }
        assert(byte_offset(s, j) == start_from(s, i, byte_offset(s, j), byte_offset(s, k)));
    } else {
        lemma_offsets(s, i + 1, k);
        if separates(s[i]) {
            lemma_start_from(s, i + 1, i + 1, k);
        } else {
            lemma_start_from(s, i + 1, j, k);
        }
    }
}

proof fn lemma_offsets(s: Seq<char>, i: int, k: int)
    requires
        0 <= i <= k,
    ensures
        byte_offset(s, i) + (k - i) <= byte_offset(s, k),
    decreases k - i,
{
    if i < k {
        lemma_offsets(s, i, k - 1);
    }
}

// ---------------------------------------------------------------------------
// Candidates.
// ---------------------------------------------------------------------------

/// A text that is completed as a path: it begins with `/`, `.` or `~`, or
/// holds a `/`.
pub open spec fn path_like(prefix: Seq<char>) -> bool {
    (prefix.len() > 0 && (prefix[0] == '/' || prefix[0] == '.' || prefix[0] == '~'))
        || text::find_char(prefix, 0, '/') is Some
}

/// Whether a text is completed as a path; anything else is a command.
pub fn completes_path(prefix: &str) -> (r: bool)
    ensures
        r == path_like(prefix@),
{
    let chars = to_chars(prefix);
    first_is(prefix, '/') || first_is(prefix, '.') || first_is(prefix, '~') || position(
        &chars,
        0,
        '/',
    ).is_some()
}

/// What a directory holds.
#[derive(Debug)]
pub struct DirEntry {
    pub name: String,
    pub is_dir: bool,
    /// The permission bits, if they are known.
    pub mode: Option<u32>,
}

/// Whether anyone may execute an entry.
pub open spec fn executable(e: DirEntry) -> bool {
    match e.mode {
        Some(mode) => mode & testcmd::access_bits(TestPath::Executable) != 0,
        None => false,
    }
}

/// Whether anyone may execute an entry.
pub fn is_executable(entry: &DirEntry) -> (r: bool)
    ensures
        r == executable(*entry),
{
    match entry.mode {
        Some(mode) => file_mode_check(mode, TestPath::Executable),
        None => false,
    }
}

/// The words of the shell that completion offers, in order.
pub open spec fn shell_words() -> Seq<Seq<char>> {
    seq![
        "cd"@,
        "pwd"@,
        "exit"@,
        "export"@,
        "unset"@,
        "echo"@,
        "alias"@,
        "unalias"@,
        "which"@,
        "type"@,
        "test"@,
        "if"@,
        "then"@,
        "else"@,
        "elif"@,
        "fi"@,
        "for"@,
        "in"@,
        "do"@,
        "done"@,
        "while"@,
        "until"@,
        "case"@,
        "esac"@,
    ]
}

/// Whether a text begins with a prefix.
pub fn starts_with(s: &str, prefix: &str) -> (r: bool)
    ensures
        r == text::begins_with(s@, prefix@),
{
    let a = to_chars(s);
    let b = to_chars(prefix);
    if a.len() < b.len() {
        return false;
    }
    let mut i: usize = 0;
    while i < b.len()
        invariant
            i <= b@.len() <= a@.len(),
            a@ == s@,
            b@ == prefix@,
            forall|k: int| 0 <= k < i ==> a@[k] == b@[k],
        decreases b@.len() - i,
    {
        if a[i] != b[i] {
            assert(s@.take(prefix@.len() as int)[i as int] != prefix@[i as int]);
            return false;
        }
        i += 1;
    }
    assert(s@.take(prefix@.len() as int) =~= prefix@);
    true
}

/// Those of the words from the `i`th on that begin with the prefix, behind
/// those of `acc`.
pub open spec fn words_with(
    words: Seq<Seq<char>>,
    i: int,
    prefix: Seq<char>,
    acc: Seq<Seq<char>>,
) -> Seq<Seq<char>>
    decreases words.len() - i,
{
    if i < 0 || i >= words.len() {
        acc
    } else if text::begins_with(words[i], prefix) {
        words_with(words, i + 1, prefix, acc.push(words[i]))
    } else {
        words_with(words, i + 1, prefix, acc)
    }
}

/// The names of those entries from the `i`th on that are executable and begin
/// with the prefix, behind those of `acc`.
pub open spec fn programs_with(
    entries: Seq<DirEntry>,
    i: int,
    prefix: Seq<char>,
    acc: Seq<Seq<char>>,
) -> Seq<Seq<char>>
    decreases entries.len() - i,
{
    if i < 0 || i >= entries.len() {
        acc
    } else if text::begins_with(entries[i].name@, prefix) && executable(entries[i]) {
        programs_with(entries, i + 1, prefix, acc.push(entries[i].name@))
    } else {
        programs_with(entries, i + 1, prefix, acc)
    }
}

fn shell_word_list() -> (r: Vec<String>)
    ensures
        text::texts(r@) == shell_words(),
{
    let words = vec![
        "cd".to_owned(),
        "pwd".to_owned(),
        "exit".to_owned(),
        "export".to_owned(),
        "unset".to_owned(),
        "echo".to_owned(),
        "alias".to_owned(),
        "unalias".to_owned(),
        "which".to_owned(),
        "type".to_owned(),
        "test".to_owned(),
        "if".to_owned(),
        "then".to_owned(),
        "else".to_owned(),
        "elif".to_owned(),
        "fi".to_owned(),
        "for".to_owned(),
        "in".to_owned(),
        "do".to_owned(),
        "done".to_owned(),
        "while".to_owned(),
        "until".to_owned(),
        "case".to_owned(),
        "esac".to_owned(),
    ];
    assert(text::texts(words@) =~= shell_words());
    words
}

/// The commands that a prefix may become: the words of the shell, then the
/// executable entries of the directories of `PATH`.
pub fn command_candidates(prefix: &str, entries: &[DirEntry]) -> (r: Vec<String>)
    ensures
        text::texts(r@) == programs_with(
            entries@,
            0,
            prefix@,
            words_with(shell_words(), 0, prefix@, Seq::empty()),
        ),
{
    let words = shell_word_list();
    let mut out: Vec<String> = Vec::new();
    let mut i: usize = 0;
    assert(text::texts(out@) =~= Seq::empty());
    while i < words.len()
        invariant
            i <= words@.len(),
            text::texts(words@) == shell_words(),
            words_with(shell_words(), 0, prefix@, Seq::empty()) == words_with(
                shell_words(),
                i as int,
                prefix@,
                text::texts(out@),
            ),
        decreases words@.len() - i,
    {
        assert(shell_words()[i as int] == text::texts(words@)[i as int]);
        if starts_with(words[i].as_str(), prefix) {
            let ghost before = text::texts(out@);
            out.push(words[i].clone());
            assert(text::texts(out@) =~= before.push(words@[i as int]@));
        }
        i += 1;
    }
    let ghost first = text::texts(out@);
    let mut k: usize = 0;
    while k < entries.len()
        invariant
            k <= entries@.len(),
            programs_with(entries@, 0, prefix@, first) == programs_with(
                entries@,
                k as int,
                prefix@,
                text::texts(out@),
            ),
        decreases entries@.len() - k,
    {
        if starts_with(entries[k].name.as_str(), prefix) && is_executable(&entries[k]) {
            let ghost before = text::texts(out@);
            out.push(entries[k].name.clone());
            assert(text::texts(out@) =~= before.push(entries@[k as int].name@));
        }
        k += 1;
    }
    out
}

/// The number of characters up to and with the last `/` among the first `n`.
pub open spec fn dir_len(s: Seq<char>, n: int) -> int
    decreases n,
{
    if n <= 0 {
        0
    } else if s[n - 1] == '/' {
        n
    } else {
        dir_len(s, n - 1)
    }
}

/// The part of a path up to its last `/`, and the rest.
pub open spec fn path_parts(s: Seq<char>) -> (Seq<char>, Seq<char>) {
    let n = dir_len(s, s.len() as int);
    (s.take(n), s.skip(n))
}

/// Splits a path behind its last `/`.
pub fn split_path(prefix: &str) -> (r: (String, String))
    ensures
        (r.0@, r.1@) == path_parts(prefix@),
{
    let chars = to_chars(prefix);
    let len: usize = chars.len();
    let mut n: usize = len;
    while n > 0 && chars[n - 1] != '/'
        invariant
            n <= len,
            len == chars@.len(),
            chars@ == prefix@,
            dir_len(prefix@, len as int) == dir_len(prefix@, n as int),
        decreases n,
    {
        n -= 1;
    }
    let dir = slice_text(&chars, 0, n);
    let base = slice_text(&chars, n, len);
    assert(dir@ =~= prefix@.take(n as int));
    assert(base@ =~= prefix@.skip(n as int));
    (dir, base)
}

/// The directory to list for the directory part of a path.
pub open spec fn listed_dir(dir: Seq<char>, home: Option<Seq<char>>) -> Seq<char> {
    if dir.len() >= 2 && dir[0] == '~' && dir[1] == '/' && home is Some {
        builtins::path_in(home->0, dir.skip(2))
    } else if dir.len() == 0 {
        "."@
    } else {
        dir
    }
}

/// The directory to list for the directory part of a path: `~/` is the home
/// directory, and nothing the current one.
pub fn resolve_dir(dir: &str, home: Option<&str>) -> (r: String)
    ensures
        r@ == listed_dir(
            dir@,
            match home {
                Some(h) => Some(h@),
                None => None,
            },
        ),
{
    let chars = to_chars(dir);
    let n: usize = chars.len();
    if n >= 2 && chars[0] == '~' && chars[1] == '/' {
        match home {
            Some(h) => {
                let rest = slice_text(&chars, 2, n);
                assert(rest@ =~= dir@.skip(2));
                return join_path(h, rest.as_str());
            },
            None => {},
        }
    }
    if n == 0 {
        ".".to_owned()
    } else {
        dir.to_owned()
    }
}

/// The paths that the entries from the `i`th on make of a prefix, behind those
/// of `acc`; a directory gets a `/` at its end.
pub open spec fn paths_with(
    entries: Seq<DirEntry>,
    i: int,
    dir: Seq<char>,
    base: Seq<char>,
    acc: Seq<Seq<char>>,
) -> Seq<Seq<char>>
    decreases entries.len() - i,
{
    if i < 0 || i >= entries.len() {
        acc
    } else if text::begins_with(entries[i].name@, base) {
        paths_with(
            entries,
            i + 1,
            dir,
            base,
            acc.push(
                if entries[i].is_dir {
                    dir + entries[i].name@ + "/"@
                } else {
                    dir + entries[i].name@
                },
            ),
        )
    } else {
        paths_with(entries, i + 1, dir, base, acc)
    }
}

/// The paths that a prefix may become, given what its directory holds.
pub fn path_candidates(prefix: &str, entries: &[DirEntry]) -> (r: Vec<String>)
    ensures
        text::texts(r@) == paths_with(
            entries@,
            0,
            path_parts(prefix@).0,
            path_parts(prefix@).1,
            Seq::empty(),
        ),
{
    let (dir, base) = split_path(prefix);
    let mut out: Vec<String> = Vec::new();
    let mut i: usize = 0;
    assert(text::texts(out@) =~= Seq::empty());
    while i < entries.len()
        invariant
            i <= entries@.len(),
            paths_with(entries@, 0, dir@, base@, Seq::empty()) == paths_with(
                entries@,
                i as int,
                dir@,
                base@,
                text::texts(out@),
            ),
        decreases entries@.len() - i,
    {
        if starts_with(entries[i].name.as_str(), base.as_str()) {
            let path = if entries[i].is_dir {
                concat3(dir.as_str(), entries[i].name.as_str(), "/")
            } else {
                concat(dir.as_str(), entries[i].name.as_str())
            };
            let ghost before = text::texts(out@);
            let ghost p = path@;
            out.push(path);
            assert(text::texts(out@) =~= before.push(p));
        }
        i += 1;
    }
    out
}

/// What a prefix may become: paths of its directory, or commands.
pub open spec fn completions(prefix: Seq<char>, entries: Seq<DirEntry>) -> Seq<Seq<char>> {
    if path_like(prefix) {
        paths_with(entries, 0, path_parts(prefix).0, path_parts(prefix).1, Seq::empty())
    } else {
        programs_with(
            entries,
            0,
            prefix,
            words_with(shell_words(), 0, prefix, Seq::empty()),
        )
    }
}

/// What a prefix may become. The entries are those of its directory if it is
/// completed as a path, else those of the directories of `PATH`.
pub fn completion_candidates(prefix: &str, entries: &[DirEntry]) -> (r: Vec<String>)
    ensures
        text::texts(r@) == completions(prefix@, entries@),
{
    if completes_path(prefix) {
        path_candidates(prefix, entries)
    } else {
        command_candidates(prefix, entries)
    }
}

/// Every text begins with the prefix.
pub open spec fn all_begin_with(texts: Seq<Seq<char>>, prefix: Seq<char>) -> bool {
    forall|k: int| 0 <= k < texts.len() ==> text::begins_with(#[trigger] texts[k], prefix)
}

proof fn lemma_words_begin(
    words: Seq<Seq<char>>,
    i: int,
    prefix: Seq<char>,
    acc: Seq<Seq<char>>,
)
    requires
        all_begin_with(acc, prefix),
    ensures
        all_begin_with(words_with(words, i, prefix, acc), prefix),
    decreases words.len() - i,
{
    if 0 <= i < words.len() {
        lemma_words_begin(words, i + 1, prefix, acc);
        if text::begins_with(words[i], prefix) {
            lemma_words_begin(words, i + 1, prefix, acc.push(words[i]));
        }
    }
}

proof fn lemma_programs_begin(
    entries: Seq<DirEntry>,
    i: int,
    prefix: Seq<char>,
    acc: Seq<Seq<char>>,
)
    requires
        all_begin_with(acc, prefix),
    ensures
        all_begin_with(programs_with(entries, i, prefix, acc), prefix),
    decreases entries.len() - i,
{
    if 0 <= i < entries.len() {
        lemma_programs_begin(entries, i + 1, prefix, acc);
        if text::begins_with(entries[i].name@, prefix) {
            lemma_programs_begin(entries, i + 1, prefix, acc.push(entries[i].name@));
        }
    }
}

proof fn lemma_paths_begin(
    entries: Seq<DirEntry>,
    i: int,
    dir: Seq<char>,
    base: Seq<char>,
    acc: Seq<Seq<char>>,
)
    requires
        all_begin_with(acc, dir + base),
    ensures
        all_begin_with(paths_with(entries, i, dir, base, acc), dir + base),
    decreases entries.len() - i,
{
    if 0 <= i < entries.len() {
        let name = entries[i].name@;
        if text::begins_with(name, base) {
            let path = if entries[i].is_dir {
                dir + name + "/"@
            } else {
                dir + name
            };
            assert(path.take((dir + base).len() as int) =~= dir + name.take(base.len() as int));
            lemma_paths_begin(entries, i + 1, dir, base, acc.push(path));
        } else {
            lemma_paths_begin(entries, i + 1, dir, base, acc);
        }
    }
}

proof fn lemma_dir_len(s: Seq<char>, n: int)
    requires
        0 <= n <= s.len(),
    ensures
        0 <= dir_len(s, n) <= n,
    decreases n,
{
    if n > 0 {
        lemma_dir_len(s, n - 1);
    }
}

/// Completion only adds to what was typed: every candidate begins with it.
pub proof fn law_completions_extend(prefix: Seq<char>, entries: Seq<DirEntry>)
    ensures
        all_begin_with(completions(prefix, entries), prefix),
{
    let (dir, base) = path_parts(prefix);
    lemma_dir_len(prefix, prefix.len() as int);
    assert(dir + base =~= prefix);
    lemma_paths_begin(entries, 0, dir, base, Seq::empty());
    let words = words_with(shell_words(), 0, prefix, Seq::empty());
    lemma_words_begin(shell_words(), 0, prefix, Seq::empty());
    lemma_programs_begin(entries, 0, prefix, words);
}

} // verus!
