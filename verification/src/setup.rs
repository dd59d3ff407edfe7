//! The configuration of a run: which program to start, which environment
//! variables to add and which flags to pass.

use vstd::prelude::*;
use vstd::string::StringExecFns;
use crate::error::CliTestError;
use crate::model::command_line;
use crate::model::env_of;
use crate::model::env_with;
use crate::model::flags_of;
use crate::model::flags_with;
use crate::model::lemma_env_of_map;
use crate::model::lemma_env_with_known;
use crate::model::lemma_env_with_map;
use crate::model::lemma_env_with_new;
use crate::model::lemma_flags_of_set;
use crate::model::lemma_flags_with_set;
use crate::model::Entry;
use crate::model::InvocationView;
use crate::model::SetupView;
use crate::text::join_spaces;
use crate::text::lemma_pieces_push;
use crate::text::split_spaces;
use crate::text::texts;

verus! {

/// The entries that a sequence of pairs of strings holds, one for one.
pub open spec fn entries(v: Seq<(String, String)>) -> Seq<Entry> {
    Seq::new(v.len(), |i: int| (v[i].0@, v[i].1@))
}

/// Where `name` first stands among `list`, or the length of `list` if it is
/// not there.
fn first_index(list: &Vec<String>, name: &String) -> (at: usize)
    ensures
        at <= list.len(),
        forall|j: int| 0 <= j < at ==> (#[trigger] texts(list@)[j]) != name@,
        at < list.len() ==> texts(list@)[at as int] == name@,
{
    let mut at: usize = 0;
    while at < list.len() && !(list[at] == *name)
        invariant
            at <= list.len(),
            forall|j: int| 0 <= j < at ==> (#[trigger] texts(list@)[j]) != name@,
        decreases list.len() - at,
    {
        at = at + 1;
    }
    at
}

/// Where the first entry named `name` stands in `env`, or the length of `env`
/// if there is none.
fn first_named(env: &Vec<(String, String)>, name: &String) -> (at: usize)
    ensures
        at <= env.len(),
        forall|j: int| 0 <= j < at ==> (#[trigger] entries(env@)[j]).0 != name@,
        at < env.len() ==> entries(env@)[at as int].0 == name@,
{
    let mut at: usize = 0;
    while at < env.len() && !(env[at].0 == *name)
        invariant
            at <= env.len(),
            forall|j: int| 0 <= j < at ==> (#[trigger] entries(env@)[j]).0 != name@,
        decreases env.len() - at,
    {
        at = at + 1;
    }
    at
}

/// Sets `name` to `value` in `env`.
fn put_entry(env: &mut Vec<(String, String)>, name: String, value: String)
    ensures
        entries(final(env)@) == env_with(entries(old(env)@), name@, value@),
{
    let at: usize = first_named(env, &name);
    proof {
        if at < env.len() {
            lemma_env_with_known(entries(env@), at as int, name@, value@);
        } else {
            lemma_env_with_new(entries(env@), name@, value@);
        }
    }
    let ghost before = entries(env@);
    if at < env.len() {
        env.set(at, (name, value));
        assert(entries(env@) =~= before.update(at as int, (name@, value@)));
    } else {
        env.push((name, value));
        assert(entries(env@) =~= before.push((name@, value@)));
    }
}

/// Adds `flag` to `flags` unless it is there.
fn put_flag(flags: &mut Vec<String>, flag: String)
    ensures
        texts(final(flags)@) == flags_with(texts(old(flags)@), flag@),
{
    let at: usize = first_index(flags, &flag);
    let ghost before = texts(flags@);
    if at < flags.len() {
        assert(before[at as int] == flag@);
    } else {
        assert(!before.contains(flag@));
        flags.push(flag);
        assert(texts(flags@) =~= before.push(flag@));
    }
}

/// Copies the strings of `list` from position `from` on.
fn copy_from(list: &Vec<String>, from: usize) -> (copy: Vec<String>)
    requires
        from <= list.len(),
    ensures
        texts(copy@) == texts(list@).skip(from as int),
{
    let mut copy: Vec<String> = Vec::new();
    let mut i: usize = from;
    while i < list.len()
        invariant
            from <= i <= list.len(),
            texts(copy@) == texts(list@).subrange(from as int, i as int),
        decreases list.len() - i,
    {
        let ghost before = texts(copy@);
        copy.push(list[i].clone());
        assert(texts(copy@) =~= before.push(list[i as int]@));
        assert(texts(copy@) =~= texts(list@).subrange(from as int, i + 1));
        i = i + 1;
    }
    assert(texts(list@).subrange(from as int, list.len() as int) =~= texts(list@).skip(
        from as int,
    ));
    copy
}

/// Copies the entries of `env`.
fn copy_entries(env: &Vec<(String, String)>) -> (copy: Vec<(String, String)>)
    ensures
        entries(copy@) == entries(env@),
{
    let mut copy: Vec<(String, String)> = Vec::new();
    let mut i: usize = 0;
    while i < env.len()
        invariant
            i <= env.len(),
            entries(copy@) == entries(env@).take(i as int),
        decreases env.len() - i,
    {
        let ghost before = entries(copy@);
        copy.push((env[i].0.clone(), env[i].1.clone()));
        assert(entries(copy@) =~= before.push((env[i as int].0@, env[i as int].1@)));
        assert(entries(copy@) =~= entries(env@).take(i + 1));
        i = i + 1;
    }
    assert(entries(env@).take(env.len() as int) =~= entries(env@));
    copy
}

/// The last argument of an invocation: the run marker, the flags joined by
/// single spaces, the separator and `command`.
pub fn command_line_of(flags: &Vec<String>, command: &str) -> (line: String)
    ensures
        line@ == command_line(texts(flags@), command@),
{
    let mut line = String::from_str("cargo run ");
    let joined = join_spaces(flags);
    line.append(joined.as_str());
    line.append(" -- ");
    line.append(command);
    line
}

/// What is handed to the operating system to start one run: the executable,
/// its arguments and the variables to add to the inherited environment.
#[derive(Debug, PartialEq, Eq)]
pub struct Invocation {
    /// The executable.
    pub program: String,
    /// Its arguments, in order.
    pub args: Vec<String>,
    /// The variables to add, each name once.
    pub env: Vec<(String, String)>,
}

impl View for Invocation {
    type V = InvocationView;

    open spec fn view(&self) -> InvocationView {
        InvocationView {
            program: self.program@,
            args: texts(self.args@),
            env: entries(self.env@),
        }
    }
}

/// The configuration of a run: the program to start, the environment
/// variables to add and the extra flags to pass.
pub struct CliTestSetup {
    cargo_flags: Vec<String>,
    program: Vec<String>,
    env: Vec<(String, String)>,
}

impl View for CliTestSetup {
    type V = SetupView;

    closed spec fn view(&self) -> SetupView {
        SetupView {
            program: texts(self.program@),
            env: entries(self.env@),
            cargo_flags: texts(self.cargo_flags@),
        }
    }
}

impl CliTestSetup {
    #[verifier::type_invariant]
    spec fn valid(&self) -> bool {
        self@.wf()
    }

    /// The default configuration: a shell that runs a command line, with no
    /// variables and no flags.
    pub fn new() -> (setup: CliTestSetup)
        ensures
            setup@ == SetupView::initial(),
            setup@.wf(),
    {
        let mut program: Vec<String> = Vec::new();
        program.push("sh".to_owned());
        program.push("-c".to_owned());
        let setup = CliTestSetup { cargo_flags: Vec::new(), program, env: Vec::new() };
        assert(setup@.program =~= SetupView::initial().program);
        assert(setup@.env =~= SetupView::initial().env);
        assert(setup@.cargo_flags =~= SetupView::initial().cargo_flags);
        setup
    }

    /// Replaces the program by the pieces of `program`, split at every single
    /// space. An empty text names no executable and is rejected.
    pub fn set_program(&mut self, program: &str) -> (ret: Result<&mut Self, CliTestError>)
        ensures
            program@.len() == 0 ==> *final(self) == *old(self)
                && (ret matches Err(e) && e is InvalidArgument
                    && e.text() == "program can't be empty"@),
            program@.len() > 0 ==> (ret matches Ok(r)
                && r@ == old(self)@.set_program(program@)
                && r@.wf()
                && *final(self) == *final(r)),
    {
        if program.is_empty() {
            return Err(CliTestError::InvalidArgument("program can't be empty".to_owned()));
        }
        proof {
            use_type_invariant(&*self);
            lemma_pieces_push(program@, ' ');
        }
        self.program = split_spaces(program);
        Ok(self)
    }

    /// Replaces the environment by that of `env`: its pairs are set one by
    /// one, in their order, so the last value given for a name counts.
    pub fn set_env(&mut self, env: Vec<(String, String)>) -> (ret: &mut Self)
        ensures
            ret@ == old(self)@.set_env(entries(env@)),
            ret@.wf(),
            *final(self) == *final(ret),
    {
        let mut fresh: Vec<(String, String)> = Vec::new();
        let ghost pairs = entries(env@);
        assert(pairs.take(0) =~= Seq::<Entry>::empty());
        assert(entries(fresh@) =~= Seq::<Entry>::empty());
        for pair in it: env
            invariant
                pairs == entries(it.seq()),
                entries(fresh@) == env_of(pairs.take(it.index() as int)),
        {
            assert(pairs.take(it.index() + 1).drop_last() =~= pairs.take(it.index() as int));
            put_entry(&mut fresh, pair.0, pair.1);
        }
        proof {
            use_type_invariant(&*self);
            assert(pairs.take(pairs.len() as int) =~= pairs);
            lemma_env_of_map(pairs);
        }
        self.env = fresh;
        self
    }

    /// Sets one environment variable. A name that is set already keeps its
    /// place and gets the new value.
    pub fn with_env(&mut self, name: &str, value: &str) -> (ret: &mut Self)
        ensures
            ret@ == old(self)@.with_env(name@, value@),
            ret@.wf(),
            *final(self) == *final(ret),
    {
        proof {
            use_type_invariant(&*self);
            lemma_env_with_map(entries(self.env@), name@, value@);
        }
        let mut env: Vec<(String, String)> = Vec::new();
        core::mem::swap(&mut self.env, &mut env);
        put_entry(&mut env, name.to_owned(), value.to_owned());
        self.env = env;
        self
    }

    /// Replaces the flags by those of `flags`, each once.
    pub fn set_cargo_flags(&mut self, flags: Vec<String>) -> (ret: &mut Self)
        ensures
            ret@ == old(self)@.set_cargo_flags(texts(flags@)),
            ret@.wf(),
            *final(self) == *final(ret),
    {
        let mut fresh: Vec<String> = Vec::new();
        let ghost list = texts(flags@);
        assert(list.take(0) =~= Seq::<Seq<char>>::empty());
        assert(texts(fresh@) =~= Seq::<Seq<char>>::empty());
        for flag in it: flags
            invariant
                list == texts(it.seq()),
                texts(fresh@) == flags_of(list.take(it.index() as int)),
        {
            assert(list.take(it.index() + 1).drop_last() =~= list.take(it.index() as int));
            put_flag(&mut fresh, flag);
        }
        proof {
            use_type_invariant(&*self);
            assert(list.take(list.len() as int) =~= list);
            lemma_flags_of_set(list);
        }
        self.cargo_flags = fresh;
        self
    }

    /// Adds one flag. A flag that is there already changes nothing.
    pub fn with_cargo_flag(&mut self, flag: &str) -> (ret: &mut Self)
        ensures
            ret@ == old(self)@.with_cargo_flag(flag@),
            ret@.wf(),
            *final(self) == *final(ret),
    {
        proof {
            use_type_invariant(&*self);
            lemma_flags_with_set(texts(self.cargo_flags@), flag@);
        }
        let mut flags: Vec<String> = Vec::new();
        core::mem::swap(&mut self.cargo_flags, &mut flags);
        put_flag(&mut flags, flag.to_owned());
        self.cargo_flags = flags;
        self
    }

    /// What to start in order to run `command` under this configuration.
    pub fn invocation(&self, command: &str) -> (inv: Invocation)
        ensures
            inv@ == self@.invocation(command@),
            self@.wf(),
    {
        proof {
            use_type_invariant(self);
        }
        let mut args = copy_from(&self.program, 1);
        args.push(command_line_of(&self.cargo_flags, command));
        let inv = Invocation {
            program: self.program[0].clone(),
            args,
            env: copy_entries(&self.env),
        };
        assert(inv@.args =~= self@.invocation(command@).args);
        inv
    }
}

} // verus!
