//! The mathematical model of a configuration: what it holds, what each
//! operation makes of it, and the laws that follow.

use vstd::prelude::*;
use crate::text::joined;
use crate::text::pieces;

verus! {

/// A name of an environment variable with its value.
pub type Entry = (Seq<char>, Seq<char>);

/// `env` with `name` set to `value`: the entry of that name is replaced where
/// it stands, and a new name comes last.
pub open spec fn env_with(env: Seq<Entry>, name: Seq<char>, value: Seq<char>) -> Seq<Entry>
    decreases env.len(),
{
    if env.len() == 0 {
        seq![(name, value)]
    } else if env[0].0 == name {
        env.update(0, (name, value))
    } else {
        seq![env[0]] + env_with(env.drop_first(), name, value)
    }
}

/// The environment that results from setting the given pairs one by one, in
/// their order, starting with none.
pub open spec fn env_of(pairs: Seq<Entry>) -> Seq<Entry>
    decreases pairs.len(),
{
    if pairs.len() == 0 {
        Seq::<Entry>::empty()
    } else {
        env_with(env_of(pairs.drop_last()), pairs.last().0, pairs.last().1)
    }
}

/// The mapping from names to values that a list of entries stands for. Where a
/// name occurs twice, its last entry counts.
pub open spec fn env_map(env: Seq<Entry>) -> Map<Seq<char>, Seq<char>>
    decreases env.len(),
{
    if env.len() == 0 {
        Map::<Seq<char>, Seq<char>>::empty()
    } else {
        env_map(env.drop_last()).insert(env.last().0, env.last().1)
    }
}

/// No name occurs in two entries.
pub open spec fn distinct_names(env: Seq<Entry>) -> bool {
    forall|i: int, j: int| 0 <= i < j < env.len() ==> env[i].0 != env[j].0
}

/// `flags` with `flag` among them: a flag that is there already changes
/// nothing, a new one comes last.
pub open spec fn flags_with(flags: Seq<Seq<char>>, flag: Seq<char>) -> Seq<Seq<char>> {
    if flags.contains(flag) {
        flags
    } else {
        flags.push(flag)
    }
}

/// The flags that result from adding the given ones one by one, in their
/// order, starting with none.
pub open spec fn flags_of(list: Seq<Seq<char>>) -> Seq<Seq<char>>
    decreases list.len(),
{
    if list.len() == 0 {
        Seq::<Seq<char>>::empty()
    } else {
        flags_with(flags_of(list.drop_last()), list.last())
    }
}

/// The last argument of an invocation: the run marker, the flags joined by
/// single spaces, the separator and the caller's command.
pub open spec fn command_line(flags: Seq<Seq<char>>, command: Seq<char>) -> Seq<char> {
    "cargo run "@ + joined(flags) + " -- "@ + command
}

/// What is handed to the operating system to start one run.
pub struct InvocationView {
    /// The executable.
    pub program: Seq<char>,
    /// Its arguments, in order.
    pub args: Seq<Seq<char>>,
    /// The variables added to the inherited environment.
    pub env: Seq<Entry>,
}

/// What a configuration holds.
pub struct SetupView {
    /// The executable and its fixed leading arguments.
    pub program: Seq<Seq<char>>,
    /// The environment variables to set, in the order in which their names
    /// first came.
    pub env: Seq<Entry>,
    /// The extra flags, in the order in which they first came.
    pub cargo_flags: Seq<Seq<char>>,
}

impl SetupView {
    /// The configuration that `new` gives: a shell that runs a command line,
    /// no variables, no flags.
    pub open spec fn initial() -> SetupView {
        SetupView {
            program: seq!["sh"@, "-c"@],
            env: Seq::<Entry>::empty(),
            cargo_flags: Seq::<Seq<char>>::empty(),
        }
    }

    /// There is an executable, no variable is named twice and no flag occurs
    /// twice.
    pub open spec fn wf(self) -> bool {
        &&& self.program.len() > 0
        &&& distinct_names(self.env)
        &&& self.cargo_flags.no_duplicates()
    }

    /// The configuration with its program replaced by the pieces of `line`.
    pub open spec fn set_program(self, line: Seq<char>) -> SetupView {
        SetupView { program: pieces(line), ..self }
    }

    /// The configuration with its environment replaced by that of `pairs`.
    pub open spec fn set_env(self, pairs: Seq<Entry>) -> SetupView {
        SetupView { env: env_of(pairs), ..self }
    }

    /// The configuration with one variable set.
    pub open spec fn with_env(self, name: Seq<char>, value: Seq<char>) -> SetupView {
        SetupView { env: env_with(self.env, name, value), ..self }
    }

    /// The configuration with its flags replaced by those of `list`.
    pub open spec fn set_cargo_flags(self, list: Seq<Seq<char>>) -> SetupView {
        SetupView { cargo_flags: flags_of(list), ..self }
    }

    /// The configuration with one flag added.
    pub open spec fn with_cargo_flag(self, flag: Seq<char>) -> SetupView {
        SetupView { cargo_flags: flags_with(self.cargo_flags, flag), ..self }
    }

    /// The variables as a mapping from name to value.
    pub open spec fn env_map(self) -> Map<Seq<char>, Seq<char>> {
        env_map(self.env)
    }

    /// The flags as a set.
    pub open spec fn flag_set(self) -> Set<Seq<char>> {
        self.cargo_flags.to_set()
    }

    /// The run of `command` under this configuration: the first text of the
    /// program is the executable, the others are its leading arguments, and
    /// the command line comes last.
    pub open spec fn invocation(self, command: Seq<char>) -> InvocationView {
        InvocationView {
            program: self.program[0],
            args: self.program.skip(1).push(command_line(self.cargo_flags, command)),
            env: self.env,
        }
    }
}

/// Setting a name that no entry has appends the entry.
pub proof fn lemma_env_with_new(env: Seq<Entry>, name: Seq<char>, value: Seq<char>)
    requires
        forall|i: int| 0 <= i < env.len() ==> (#[trigger] env[i]).0 != name,
    ensures
        env_with(env, name, value) == env.push((name, value)),
    decreases env.len(),
{
    if env.len() > 0 {
        let rest = env.drop_first();
        assert forall|i: int| 0 <= i < rest.len() implies (#[trigger] rest[i]).0 != name by {
            assert(rest[i] == env[i + 1]);
        }
        lemma_env_with_new(rest, name, value);
        assert(seq![env[0]] + rest.push((name, value)) =~= env.push((name, value)));
    } else {
        assert(env_with(env, name, value) =~= env.push((name, value)));
    }
}

/// Setting a name whose first entry stands at `at` replaces that entry.
pub proof fn lemma_env_with_known(env: Seq<Entry>, at: int, name: Seq<char>, value: Seq<char>)
    requires
        0 <= at < env.len(),
        env[at].0 == name,
        forall|i: int| 0 <= i < at ==> (#[trigger] env[i]).0 != name,
    ensures
        env_with(env, name, value) == env.update(at, (name, value)),
    decreases env.len(),
{
    if at > 0 {
        let rest = env.drop_first();
        assert(env[0].0 != name);
        assert forall|i: int| 0 <= i < at - 1 implies (#[trigger] rest[i]).0 != name by {
            assert(rest[i] == env[i + 1]);
        }
        lemma_env_with_known(rest, at - 1, name, value);
        assert(seq![env[0]] + rest.update(at - 1, (name, value)) =~= env.update(
            at,
            (name, value),
        ));
    }
}

/// The names of a mapping are the names of its entries, and where no name
/// occurs twice each entry is found in the mapping.
pub proof fn lemma_env_map_entries(env: Seq<Entry>)
    ensures
        forall|i: int| 0 <= i < env.len() ==> env_map(env).contains_key((#[trigger] env[i]).0),
        forall|name: Seq<char>| #[trigger]
            env_map(env).contains_key(name) ==> exists|i: int|
                0 <= i < env.len() && (#[trigger] env[i]).0 == name,
        distinct_names(env) ==> forall|i: int|
            0 <= i < env.len() ==> env_map(env).contains_pair(
                (#[trigger] env[i]).0,
                env[i].1,
            ),
    decreases env.len(),
{
    if env.len() > 0 {
        let head = env.drop_last();
        lemma_env_map_entries(head);
        assert forall|i: int| 0 <= i < env.len() implies env_map(env).contains_key(
            (#[trigger] env[i]).0,
        ) by {
            if i < head.len() {
                assert(head[i] == env[i]);
            }
        }
        assert forall|name: Seq<char>| #[trigger]
            env_map(env).contains_key(name) implies exists|i: int|
            0 <= i < env.len() && (#[trigger] env[i]).0 == name by {
            if name == env.last().0 {
                assert(env[env.len() - 1].0 == name);
            } else {
                assert(env_map(head).contains_key(name));
                let i = choose|i: int| 0 <= i < head.len() && (#[trigger] head[i]).0 == name;
                assert(env[i].0 == name);
            }
        }
        if distinct_names(env) {
            assert(distinct_names(head)) by {
                assert forall|i: int, j: int| 0 <= i < j < head.len() implies head[i].0
                    != head[j].0 by {
                    assert(head[i] == env[i] && head[j] == env[j]);
                }
            }
            assert forall|i: int| 0 <= i < env.len() implies env_map(env).contains_pair(
                (#[trigger] env[i]).0,
                env[i].1,
            ) by {
                if i < head.len() {
                    assert(head[i] == env[i]);
                    assert(env[i].0 != env[env.len() - 1].0);
                }
            }
        }
    }
}

/// Setting a variable in an environment without repeated names sets it in
/// the mapping, and no name is repeated afterwards.
pub proof fn lemma_env_with_map(env: Seq<Entry>, name: Seq<char>, value: Seq<char>)
    requires
        distinct_names(env),
    ensures
        distinct_names(env_with(env, name, value)),
        env_map(env_with(env, name, value)) == env_map(env).insert(name, value),
    decreases env.len(),
{
    let after = env_with(env, name, value);
    if exists|i: int| 0 <= i < env.len() && (#[trigger] env[i]).0 == name {
        let at = choose|i: int| 0 <= i < env.len() && (#[trigger] env[i]).0 == name;
        assert forall|i: int| 0 <= i < at implies (#[trigger] env[i]).0 != name by {}
        lemma_env_with_known(env, at, name, value);
        assert(distinct_names(after)) by {
            assert forall|i: int, j: int| 0 <= i < j < after.len() implies after[i].0
                != after[j].0 by {
                assert(after[i].0 == env[i].0 && after[j].0 == env[j].0);
            }
        }
        lemma_env_map_update(env, at, value);
    } else {
        lemma_env_with_new(env, name, value);
        assert(after.drop_last() =~= env);
        assert(distinct_names(after)) by {
            assert forall|i: int, j: int| 0 <= i < j < after.len() implies after[i].0
                != after[j].0 by {
                if j < env.len() {
                    assert(after[i] == env[i] && after[j] == env[j]);
                } else {
                    assert(after[i] == env[i]);
                }
            }
        }
    }
}

/// Replacing the value of the entry at `at`, in an environment without
/// repeated names, sets that name in the mapping.
proof fn lemma_env_map_update(env: Seq<Entry>, at: int, value: Seq<char>)
    requires
        distinct_names(env),
        0 <= at < env.len(),
    ensures
        env_map(env.update(at, (env[at].0, value))) == env_map(env).insert(env[at].0, value),
    decreases env.len(),
{
    let name = env[at].0;
    let after = env.update(at, (name, value));
    let head = env.drop_last();
    if at == env.len() - 1 {
        assert(after.drop_last() =~= head);
        assert(env_map(after) =~= env_map(env).insert(name, value));
    } else {
        assert(distinct_names(head)) by {
            assert forall|i: int, j: int| 0 <= i < j < head.len() implies head[i].0
                != head[j].0 by {
                assert(head[i] == env[i] && head[j] == env[j]);
            }
        }
        assert(head[at] == env[at]);
        lemma_env_map_update(head, at, value);
        assert(after.drop_last() =~= head.update(at, (name, value)));
        assert(env[at].0 != env[env.len() - 1].0);
        assert(env_map(after) =~= env_map(env).insert(name, value));
    }
}

/// The environment made of a list of pairs names nothing twice and maps each
/// name to the value of its last pair.
pub proof fn lemma_env_of_map(pairs: Seq<Entry>)
    ensures
        distinct_names(env_of(pairs)),
        env_map(env_of(pairs)) == env_map(pairs),
    decreases pairs.len(),
{
    if pairs.len() > 0 {
        lemma_env_of_map(pairs.drop_last());
        lemma_env_with_map(env_of(pairs.drop_last()), pairs.last().0, pairs.last().1);
    }
}

/// Adding a flag to flags without repeats adds it to their set, and nothing
/// is repeated afterwards.
pub proof fn lemma_flags_with_set(flags: Seq<Seq<char>>, flag: Seq<char>)
    requires
        flags.no_duplicates(),
    ensures
        flags_with(flags, flag).no_duplicates(),
        flags_with(flags, flag).to_set() == flags.to_set().insert(flag),
{
    let after = flags_with(flags, flag);
    if flags.contains(flag) {
        assert(after.to_set() =~= flags.to_set().insert(flag));
    } else {
        assert forall|i: int, j: int| 0 <= i < after.len() && 0 <= j < after.len() && i
            != j implies after[i] != after[j] by {
            if i < flags.len() {
                assert(flags.contains(after[i]));
            }
            if j < flags.len() {
                assert(flags.contains(after[j]));
            }
        }
        assert forall|f: Seq<char>| after.to_set().contains(f) <==> flags.to_set().insert(
            flag,
        ).contains(f) by {
            if after.contains(f) {
                let i = choose|i: int| 0 <= i < after.len() && after[i] == f;
                if i < flags.len() {
                    assert(flags[i] == f);
                }
            }
            if flags.contains(f) {
                let i = choose|i: int| 0 <= i < flags.len() && flags[i] == f;
                assert(after[i] == f);
            }
            if f == flag {
                assert(after[after.len() - 1] == f);
            }
        }
        assert(after.to_set() =~= flags.to_set().insert(flag));
    }
}

/// The flags made of a list repeat nothing and are, as a set, the flags of
/// the list.
pub proof fn lemma_flags_of_set(list: Seq<Seq<char>>)
    ensures
        flags_of(list).no_duplicates(),
        flags_of(list).to_set() == list.to_set(),
    decreases list.len(),
{
    if list.len() > 0 {
        let head = list.drop_last();
        lemma_flags_of_set(head);
        lemma_flags_with_set(flags_of(head), list.last());
        assert forall|f: Seq<char>| list.to_set().contains(f) <==> head.to_set().insert(
            list.last(),
        ).contains(f) by {
            if list.contains(f) {
                let i = choose|i: int| 0 <= i < list.len() && list[i] == f;
                if i < head.len() {
                    assert(head[i] == f);
                }
            }
            if head.contains(f) {
                let i = choose|i: int| 0 <= i < head.len() && head[i] == f;
                assert(list[i] == f);
            }
            if f == list.last() {
                assert(list[list.len() - 1] == f);
            }
        }
        assert(list.to_set() =~= head.to_set().insert(list.last()));
    } else {
        assert(flags_of(list).to_set() =~= list.to_set());
    }
}

/// Setting a name a second time leaves what setting it once with the second
/// value would have left.
proof fn lemma_env_with_again(
    env: Seq<Entry>,
    name: Seq<char>,
    first: Seq<char>,
    second: Seq<char>,
)
    ensures
        env_with(env_with(env, name, first), name, second) == env_with(env, name, second),
    decreases env.len(),
{
    let once = env_with(env, name, first);
    if env.len() == 0 {
        assert(env_with(once, name, second) =~= env_with(env, name, second));
    } else if env[0].0 == name {
        assert(env_with(once, name, second) =~= env_with(env, name, second));
    } else {
        let rest = env.drop_first();
        lemma_env_with_again(rest, name, first, second);
        assert(once.drop_first() =~= env_with(rest, name, first));
        assert(env_with(once, name, second) =~= env_with(env, name, second));
    }
}

/// Of two values set for one name the second counts: the configuration is the
/// one that the second value alone would have given, the name maps to it, and
/// every other name is there or not, with its value, as before.
pub proof fn lemma_with_env_twice(
    s: SetupView,
    name: Seq<char>,
    first: Seq<char>,
    second: Seq<char>,
)
    requires
        s.wf(),
    ensures
        s.with_env(name, first).with_env(name, second) == s.with_env(name, second),
        s.with_env(name, first).with_env(name, second).wf(),
        s.with_env(name, first).with_env(name, second).env_map() == s.env_map().insert(
            name,
            second,
        ),
        forall|other: Seq<char>|
            other != name ==> (#[trigger] s.with_env(name, first).with_env(
                name,
                second,
            ).env_map().contains_key(other) <==> s.env_map().contains_key(other)),
        forall|other: Seq<char>|
            other != name ==> #[trigger] s.with_env(name, first).with_env(
                name,
                second,
            ).env_map()[other] == s.env_map()[other],
{
    lemma_env_with_again(s.env, name, first, second);
    lemma_env_with_map(s.env, name, second);
}

/// Adding a flag a second time changes nothing, and a configuration that had
/// no flags has exactly that one.
pub proof fn lemma_with_cargo_flag_twice(s: SetupView, flag: Seq<char>)
    ensures
        s.with_cargo_flag(flag).with_cargo_flag(flag) == s.with_cargo_flag(flag),
        s.cargo_flags.len() == 0 ==> s.with_cargo_flag(flag).with_cargo_flag(flag).cargo_flags
            == seq![flag],
        s.cargo_flags.len() == 0 ==> s.with_cargo_flag(flag).with_cargo_flag(flag).flag_set().len()
            == 1,
{
    let once = flags_with(s.cargo_flags, flag);
    if s.cargo_flags.contains(flag) {
    } else {
        assert(once[once.len() - 1] == flag);
    }
    assert(once.contains(flag));
    if s.cargo_flags.len() == 0 {
        assert(once =~= seq![flag]);
        assert(once.to_set() =~= Set::<Seq<char>>::empty().insert(flag));
    }
}

/// After the environment is replaced by that of `pairs`, the invocation of any
/// command carries every name of `pairs` once, with the value of its last pair.
pub proof fn lemma_set_env_invocation(s: SetupView, pairs: Seq<Entry>, command: Seq<char>)
    ensures
        distinct_names(s.set_env(pairs).invocation(command).env),
        env_map(s.set_env(pairs).invocation(command).env) == env_map(pairs),
        forall|name: Seq<char>| #[trigger]
            env_map(pairs).contains_key(name) ==> s.set_env(pairs).invocation(
                command,
            ).env.contains((name, env_map(pairs)[name])),
{
    let env = env_of(pairs);
    lemma_env_of_map(pairs);
    lemma_env_map_entries(env);
    assert forall|name: Seq<char>| #[trigger] env_map(pairs).contains_key(name) implies env.contains(
        (name, env_map(pairs)[name]),
    ) by {
        assert(env_map(env).contains_key(name));
        let i = choose|i: int| 0 <= i < env.len() && (#[trigger] env[i]).0 == name;
        assert(env_map(env).contains_pair(env[i].0, env[i].1));
        assert(env[i] == (name, env_map(pairs)[name]));
    }
}

} // verus!
