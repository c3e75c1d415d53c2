# rsh

A small UNIX shell whose core is verified with Verus: words and quotes, the
grammar, parameter and arithmetic expansion, control structures, functions,
builtins and job control. Everything that decides or computes stands in `src/`,
with contracts that Verus proves. Everything that touches the system stands in
`app/` and does only what the library asks for.

## How it fits together

A line becomes tokens (`tokenizer`), tokens become jobs (`parser`, `syntax`),
and jobs run on a machine (`machine`, `executor`). The machine takes steps on the
shell's state until it needs the world outside. It then asks for one action, such
as running a program, opening a file or listing the paths that match a pattern,
and goes on with the answer. `app/driver.rs` is the loop that performs the
actions.

| Modules | What they hold |
| --- | --- |
| `text`, `table`, `vars`, `report` | texts, tables of names, variables, lines to write |
| `tokenizer`, `parser`, `syntax` | from text to jobs |
| `arith`, `expand`, `pattern` | arithmetic, expansion of words, `case` patterns |
| `state`, `builtins`, `testcmd`, `readcmd`, `jobs`, `jobctl`, `outside` | the shell's state and its builtins |
| `machine`, `executor`, `redirect` | running commands |
| `completion`, `session` | completion, prompt, history, lines of input |
| `lexlaws`, `grammar`, `flatlaws` | newlines separate; every written program parses to itself; a flat one keeps its tokens |
| `quoting`, `interpolation`, `wordlaws`, `arithlaws` | laws of words and arithmetic |
| `discipline`, `flowlaws`, `soundness` | laws of the machine and of the state |

Text is modelled as `Seq<char>`, and every type that holds strings has a `model`
made of such texts. A quoted character carries a mark in front of it until the
end of the expansion, so that later passes leave it alone. A mark behind a `$`
tells that the expansion stood in double quotes: its result is marked in turn,
and stays one word.

## What is trusted

The contracts of a few functions of the standard library (`String::push`,
equality of `str`, the character classes, upper case, the debug form of a text),
of `glob::Pattern`, and of the wait status functions of `libc`. Each stands next
to a comment that says what is claimed.
