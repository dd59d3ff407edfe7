use cli_test::output::failure_message;
use cli_test::CliTestError;
use cli_test::CliTestOutput;
use cli_test::ExitStatus;

fn exited(code: i32, stdout: &[u8], stderr: &[u8]) -> CliTestOutput {
    CliTestOutput {
        status: ExitStatus { code: Some(code), text: format!("exit status: {}", code) },
        stdout: stdout.to_vec(),
        stderr: stderr.to_vec(),
    }
}

#[test]
fn success_hands_back_the_same_outcome_on_exit_code_zero() {
    let output = exited(0, b"hello\n", b"");
    let same = output.success().unwrap();
    assert!(std::ptr::eq(same, &output));
    assert_eq!(same.stdout_str(), "hello\n");
    assert_eq!(same.stderr_str(), "");
}

#[test]
fn exit_status_succeeds_on_code_zero_only() {
    assert!(ExitStatus { code: Some(0), text: String::new() }.success());
    assert!(!ExitStatus { code: Some(1), text: String::new() }.success());
    assert!(!ExitStatus { code: Some(-1), text: String::new() }.success());
    assert!(!ExitStatus { code: None, text: String::new() }.success());
}

#[test]
fn success_fails_on_a_nonzero_exit_code() {
    let output = exited(1, b"partial", b"boom\n");
    let err = output.success().unwrap_err();
    assert_eq!(
        err,
        CliTestError::CommandFailed(
            "command failed with status: exit status: 1\nstderr: boom\n".to_string()
        )
    );
    assert_eq!(err.message(), "command failed with status: exit status: 1\nstderr: boom\n");
    assert_eq!(output.stdout, b"partial".to_vec());
    assert_eq!(output.stderr, b"boom\n".to_vec());
    assert_eq!(output.stdout_str(), "partial");
}

#[test]
fn success_fails_when_the_process_was_ended_by_a_signal() {
    let output = CliTestOutput {
        status: ExitStatus { code: None, text: "signal: 9 (SIGKILL)".to_string() },
        stdout: Vec::new(),
        stderr: Vec::new(),
    };
    let err = output.success().unwrap_err();
    assert_eq!(err.message(), "command failed with status: signal: 9 (SIGKILL)\nstderr: ");
}

#[test]
fn failure_message_decodes_standard_error_lossily() {
    let output = exited(2, b"", b"bad \xff byte");
    let err = output.success().unwrap_err();
    assert_eq!(
        err.message(),
        "command failed with status: exit status: 2\nstderr: bad \u{fffd} byte"
    );
}

#[test]
fn stdout_str_gives_the_text_that_was_written() {
    let text = "gr\u{fc}\u{df}e, \u{4e16}\u{754c} \u{1f980}\n";
    let output = exited(0, text.as_bytes(), b"");
    assert_eq!(output.stdout_str(), text);
}

#[test]
fn stderr_str_gives_the_text_that_was_written() {
    let output = exited(0, b"", "warning: \u{e9}t\u{e9}\n".as_bytes());
    assert_eq!(output.stderr_str(), "warning: \u{e9}t\u{e9}\n");
}

#[test]
fn stdout_str_puts_a_placeholder_where_a_byte_is_invalid() {
    let output = exited(0, b"fo\xffo", b"");
    assert_eq!(output.stdout_str(), "fo\u{fffd}o");
}

#[test]
fn stdout_str_replaces_a_cut_off_sequence() {
    let output = exited(0, b"a\xe4\xb8", b"\xc3");
    assert_eq!(output.stdout_str(), "a\u{fffd}");
    assert_eq!(output.stderr_str(), "\u{fffd}");
}

#[test]
fn stdout_str_of_nothing_is_empty() {
    let output = exited(0, b"", b"");
    assert_eq!(output.stdout_str(), "");
}

#[test]
fn failure_message_puts_status_before_standard_error() {
    assert_eq!(
        failure_message("exit status: 101", "panicked"),
        "command failed with status: exit status: 101\nstderr: panicked"
    );
    assert_eq!(failure_message("", ""), "command failed with status: \nstderr: ");
}
