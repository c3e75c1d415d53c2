//! Shell variables and the environment handed to child processes.

use crate::table;
use crate::table::{copy_table, Table};
use crate::text;
use crate::text::{clone_texts, to_chars};
use vstd::prelude::*;

verus! {

/// The variables that a shell works with.
#[derive(Debug)]
pub struct Vars {
    /// The variables of the shell itself.
    pub shell: Table<String>,
    /// The environment that child processes receive.
    pub env: Table<String>,
    /// Diagnostics of `${NAME:?message}` that are still to be printed.
    pub notices: Vec<String>,
}

/// Model of the variables.
#[verifier::ext_equal]
pub struct VarsModel {
    pub shell: table::Entries<Seq<char>>,
    pub env: table::Entries<Seq<char>>,
    pub notices: Seq<Seq<char>>,
}

/// A text that the environment can hold as a name: not empty, without `=` and
/// without the NUL character.
pub open spec fn env_name(k: Seq<char>) -> bool {
    k.len() > 0 && !k.contains('=') && !k.contains('\0')
}

/// A text that the environment can hold as a value.
pub open spec fn env_value(v: Seq<char>) -> bool {
    !v.contains('\0')
}

/// The environment with `v` under the name `k`; unchanged where it cannot hold
/// the pair.
pub open spec fn env_with(env: table::Entries<Seq<char>>, k: Seq<char>, v: Seq<char>) -> table::Entries<
    Seq<char>,
> {
    if env_name(k) && env_value(v) {
        table::with(env, k, v)
    } else {
        env
    }
}

impl VarsModel {
    /// The value of a name: the shell variable, else the environment, else
    /// nothing.
    pub open spec fn value(self, name: Seq<char>) -> Seq<char> {
        match table::lookup(self.shell, name) {
            Some(v) => v,
            None => match table::lookup(self.env, name) {
                Some(v) => v,
                None => Seq::empty(),
            },
        }
    }

    /// A shell variable set, the environment left alone.
    pub open spec fn set(self, k: Seq<char>, v: Seq<char>) -> VarsModel {
        VarsModel { shell: table::with(self.shell, k, v), ..self }
    }

    /// A shell variable set and exported.
    pub open spec fn export(self, k: Seq<char>, v: Seq<char>) -> VarsModel {
        VarsModel {
            shell: table::with(self.shell, k, v),
            env: env_with(self.env, k, v),
            ..self
        }
    }

    /// A name dropped from the shell and the environment.
    pub open spec fn unset(self, k: Seq<char>) -> VarsModel {
        VarsModel {
            shell: table::without(self.shell, k),
            env: table::without(self.env, k),
            ..self
        }
    }

    /// One more diagnostic to print.
    pub open spec fn notice(self, line: Seq<char>) -> VarsModel {
        VarsModel { notices: self.notices.push(line), ..self }
    }
}

fn has_char(s: &str, c: char) -> (r: bool)
    ensures
        r == s@.contains(c),
{
    let chars = to_chars(s);
    let mut i: usize = 0;
    while i < chars.len()
        invariant
            i <= chars@.len(),
            chars@ == s@,
            forall|k: int| 0 <= k < i ==> chars@[k] != c,
        decreases chars@.len() - i,
    {
        if chars[i] == c {
            return true;
        }
        i += 1;
    }
    false
}

impl Vars {
    pub open spec fn model(self) -> VarsModel {
        VarsModel {
            shell: self.shell.model(),
            env: self.env.model(),
            notices: text::texts(self.notices@),
        }
    }

    /// No variables and an empty environment.
    pub fn new() -> (r: Self)
        ensures
            r.model() == (VarsModel {
                shell: Seq::empty(),
                env: Seq::empty(),
                notices: Seq::empty(),
            }),
    {
        let r = Vars { shell: Table::new(), env: Table::new(), notices: Vec::new() };
        assert(r.model().notices =~= Seq::empty());
        r
    }

    /// Sets a shell variable.
    pub fn insert(&mut self, name: String, value: String)
        ensures
            final(self).model() == old(self).model().set(name@, value@),
    {
        self.shell.insert(name, value);
    }

    /// The shell variable of that name.
    pub fn get(&self, name: &str) -> (r: Option<&String>)
        ensures
            match r {
                Some(v) => table::lookup(self.model().shell, name@) == Some(v@),
                None => table::lookup(self.model().shell, name@) is None,
            },
    {
        self.shell.get(name)
    }

    /// Sets a shell variable and exports it.
    pub fn export(&mut self, name: String, value: String)
        ensures
            final(self).model() == old(self).model().export(name@, value@),
    {
        if !name.as_str().is_empty() && !has_char(name.as_str(), '=') && !has_char(
            name.as_str(),
            '\0',
        ) && !has_char(value.as_str(), '\0') {
            self.env.insert(name.clone(), value.clone());
        }
        self.shell.insert(name, value);
    }

    /// Drops a shell variable and takes it out of the environment.
    pub fn unset(&mut self, name: &str)
        ensures
            final(self).model() == old(self).model().unset(name@),
    {
        self.shell.remove(name);
        self.env.remove(name);
    }

    /// Notes a diagnostic.
    pub fn note(&mut self, line: String)
        ensures
            final(self).model() == old(self).model().notice(line@),
    {
        let ghost before = text::texts(self.notices@);
        let ghost text_of_line = line@;
        self.notices.push(line);
        assert(text::texts(self.notices@) =~= before.push(text_of_line));
    }

    /// A copy of the variables.
    pub fn copy(&self) -> (r: Vars)
        ensures
            r.model() == self.model(),
    {
        Vars {
            shell: copy_table(&self.shell),
            env: copy_table(&self.env),
            notices: clone_texts(&self.notices),
        }
    }
}

/// The value of a variable: the shell's, else the environment's, else the
/// empty text.
pub fn lookup_var(name: &str, vars: &Vars) -> (r: String)
    ensures
        r@ == vars.model().value(name@),
{
    match vars.shell.get(name) {
        Some(v) => v.clone(),
        None => match vars.env.get(name) {
            Some(v) => v.clone(),
            None => String::new(),
        },
    }
}

/// An exported variable is seen in the shell and, where the environment can
/// hold it, by child processes; a plain assignment reaches the shell alone.
pub proof fn law_export_and_assignment(vars: VarsModel, k: Seq<char>, v: Seq<char>)
    ensures
        vars.export(k, v).value(k) == v,
        env_name(k) && env_value(v) ==> table::lookup(vars.export(k, v).env, k) == Some(v),
        vars.set(k, v).value(k) == v,
        vars.set(k, v).env == vars.env,
{
    table::law_read_after_write(vars.shell, k, v, k);
    table::law_read_after_write(vars.env, k, v, k);
}

/// After `unset` a name has the empty value, in the shell and for children.
pub proof fn law_unset(vars: VarsModel, k: Seq<char>)
    ensures
        vars.unset(k).value(k) == Seq::<char>::empty(),
        table::lookup(vars.unset(k).env, k) is None,
{
    table::law_read_after_remove(vars.shell, k, k);
    table::law_read_after_remove(vars.env, k, k);
}

/// The environment holds no name that is empty, or that has a `=` or a NUL
/// character in it, and no value with a NUL character: such a pair is set in
/// the shell alone. Any other pair is set in both.
pub proof fn law_environment(vars: VarsModel, k: Seq<char>, v: Seq<char>, other: Seq<char>)
    requires
        other != k,
    ensures
        k.len() == 0 || k.contains('=') || k.contains('\0') || v.contains('\0') ==> vars.export(
            k,
            v,
        ).env == vars.env,
        k.len() > 0 && !k.contains('=') && !k.contains('\0') && !v.contains('\0') ==> table::lookup(
            vars.export(k, v).env,
            k,
        ) == Some(v),
        table::lookup(vars.export(k, v).shell, k) == Some(v),
        vars.export(k, v).value(other) == vars.value(other),
        vars.set(k, v).value(other) == vars.value(other),
        vars.unset(k).value(other) == vars.value(other),
{
    table::law_read_after_write(vars.shell, k, v, other);
    table::law_read_after_write(vars.env, k, v, other);
    table::law_read_after_remove(vars.shell, k, other);
    table::law_read_after_remove(vars.env, k, other);
}

} // verus!
