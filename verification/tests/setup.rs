use cli_test::CliTestError;
use cli_test::CliTestSetup;
use cli_test::Invocation;

fn strings(items: &[&str]) -> Vec<String> {
    items.iter().map(|s| s.to_string()).collect()
}

fn pairs(items: &[(&str, &str)]) -> Vec<(String, String)> {
    items.iter().map(|(k, v)| (k.to_string(), v.to_string())).collect()
}

#[test]
fn new_runs_commands_through_a_shell() {
    let setup = CliTestSetup::new();
    let inv = setup.invocation("status");
    assert_eq!(inv.program, "sh");
    assert_eq!(inv.args, strings(&["-c", "cargo run  -- status"]));
    assert_eq!(inv.env, pairs(&[]));
}

#[test]
fn set_program_splits_at_single_spaces() {
    let mut setup = CliTestSetup::new();
    setup.set_program("bash -e -c").unwrap();
    let inv = setup.invocation("list");
    assert_eq!(inv.program, "bash");
    assert_eq!(inv.args, strings(&["-e", "-c", "cargo run  -- list"]));
}

#[test]
fn set_program_with_one_word_has_no_leading_arguments() {
    let mut setup = CliTestSetup::new();
    setup.set_program("env").unwrap();
    let inv = setup.invocation("x");
    assert_eq!(inv.program, "env");
    assert_eq!(inv.args, strings(&["cargo run  -- x"]));
}

#[test]
fn set_program_keeps_the_empty_pieces_between_spaces() {
    let mut setup = CliTestSetup::new();
    setup.set_program("a  b ").unwrap();
    let inv = setup.invocation("x");
    assert_eq!(inv.program, "a");
    assert_eq!(inv.args, strings(&["", "b", "", "cargo run  -- x"]));
}

#[test]
fn set_program_of_one_space_gives_two_empty_pieces() {
    let mut setup = CliTestSetup::new();
    setup.set_program(" ").unwrap();
    let inv = setup.invocation("x");
    assert_eq!(inv.program, "");
    assert_eq!(inv.args, strings(&["", "cargo run  -- x"]));
}

#[test]
fn set_program_does_not_split_at_other_white_space() {
    let mut setup = CliTestSetup::new();
    setup.set_program("a\tb\nc d\u{e9}").unwrap();
    let inv = setup.invocation("x");
    assert_eq!(inv.program, "a\tb\nc");
    assert_eq!(inv.args, strings(&["d\u{e9}", "cargo run  -- x"]));
}

#[test]
fn set_program_does_not_honour_quotes() {
    let mut setup = CliTestSetup::new();
    setup.set_program("sh -c 'echo hi'").unwrap();
    let inv = setup.invocation("x");
    assert_eq!(inv.program, "sh");
    assert_eq!(inv.args, strings(&["-c", "'echo", "hi'", "cargo run  -- x"]));
}

#[test]
fn set_program_rejects_the_empty_text() {
    let mut setup = CliTestSetup::new();
    let err = setup.set_program("").map(|_| ()).unwrap_err();
    assert_eq!(err, CliTestError::InvalidArgument("program can't be empty".to_string()));
    assert_eq!(err.message(), "program can't be empty");
    let inv = setup.invocation("x");
    assert_eq!(inv.program, "sh");
    assert_eq!(inv.args, strings(&["-c", "cargo run  -- x"]));
}

#[test]
fn set_program_replaces_an_earlier_program() {
    let mut setup = CliTestSetup::new();
    setup.set_program("bash -c").unwrap();
    setup.set_program("zsh -i -c").unwrap();
    let inv = setup.invocation("x");
    assert_eq!(inv.program, "zsh");
    assert_eq!(inv.args, strings(&["-i", "-c", "cargo run  -- x"]));
}

#[test]
fn set_env_hands_every_variable_to_the_invocation() {
    let mut setup = CliTestSetup::new();
    setup.set_env(pairs(&[("HOME", "/tmp/home"), ("LANG", "C"), ("EMPTY", "")]));
    let inv = setup.invocation("x");
    assert_eq!(inv.env, pairs(&[("HOME", "/tmp/home"), ("LANG", "C"), ("EMPTY", "")]));
}

#[test]
fn set_env_replaces_the_whole_environment() {
    let mut setup = CliTestSetup::new();
    setup.with_env("OLD", "1");
    setup.set_env(pairs(&[("NEW", "2")]));
    assert_eq!(setup.invocation("x").env, pairs(&[("NEW", "2")]));
    setup.set_env(pairs(&[]));
    assert_eq!(setup.invocation("x").env, pairs(&[]));
}

#[test]
fn set_env_takes_the_last_value_given_for_a_name() {
    let mut setup = CliTestSetup::new();
    setup.set_env(pairs(&[("A", "1"), ("B", "2"), ("A", "3")]));
    assert_eq!(setup.invocation("x").env, pairs(&[("A", "3"), ("B", "2")]));
}

#[test]
fn with_env_twice_keeps_the_second_value() {
    let mut setup = CliTestSetup::new();
    setup.with_env("KEEP", "k").with_env("NAME", "first").with_env("ALSO", "a");
    setup.with_env("NAME", "second");
    assert_eq!(
        setup.invocation("x").env,
        pairs(&[("KEEP", "k"), ("NAME", "second"), ("ALSO", "a")])
    );
}

#[test]
fn with_env_tells_names_apart_by_case() {
    let mut setup = CliTestSetup::new();
    setup.with_env("Path", "a").with_env("PATH", "b");
    assert_eq!(setup.invocation("x").env, pairs(&[("Path", "a"), ("PATH", "b")]));
}

#[test]
fn with_cargo_flag_twice_keeps_one_flag() {
    let mut setup = CliTestSetup::new();
    setup.with_cargo_flag("--release").with_cargo_flag("--release");
    let inv = setup.invocation("build");
    assert_eq!(inv.args, strings(&["-c", "cargo run --release -- build"]));
}

#[test]
fn flags_are_joined_by_single_spaces() {
    let mut setup = CliTestSetup::new();
    setup.with_cargo_flag("--release").with_cargo_flag("--quiet").with_cargo_flag("--release");
    let inv = setup.invocation("a b");
    assert_eq!(inv.args, strings(&["-c", "cargo run --release --quiet -- a b"]));
}

#[test]
fn set_cargo_flags_replaces_the_flags_and_drops_repeats() {
    let mut setup = CliTestSetup::new();
    setup.with_cargo_flag("--old");
    setup.set_cargo_flags(strings(&["--quiet", "--locked", "--quiet"]));
    let inv = setup.invocation("x");
    assert_eq!(inv.args, strings(&["-c", "cargo run --quiet --locked -- x"]));
    setup.set_cargo_flags(strings(&[]));
    assert_eq!(setup.invocation("x").args, strings(&["-c", "cargo run  -- x"]));
}

#[test]
fn setters_chain_on_one_configuration() {
    let mut setup = CliTestSetup::new();
    setup
        .set_program("bash -c")
        .unwrap()
        .set_env(pairs(&[("A", "1")]))
        .with_env("B", "2")
        .set_cargo_flags(strings(&["--quiet"]))
        .with_cargo_flag("--release");
    let inv = setup.invocation("go");
    assert_eq!(
        inv,
        Invocation {
            program: "bash".to_string(),
            args: strings(&["-c", "cargo run --quiet --release -- go"]),
            env: pairs(&[("A", "1"), ("B", "2")]),
        }
    );
}

#[test]
fn invocation_leaves_the_configuration_as_it_was() {
    let mut setup = CliTestSetup::new();
    setup.with_env("A", "1").with_cargo_flag("--quiet");
    let first = setup.invocation("one");
    let second = setup.invocation("one");
    assert_eq!(first, second);
    assert_eq!(setup.invocation("").args, strings(&["-c", "cargo run --quiet -- "]));
}
