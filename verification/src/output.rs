//! The outcome of a finished run: how the process ended and what it wrote.

use vstd::prelude::*;
use vstd::string::StringExecFns;
use vstd::utf8::decode_utf8;
use vstd::utf8::encode_utf8;
use vstd::utf8::encode_utf8_decode_utf8;
use vstd::utf8::encode_utf8_valid_utf8;
use vstd::utf8::valid_utf8;
use crate::error::CliTestError;

verus! {

/// How a process ended.
#[derive(Debug, PartialEq, Eq)]
pub struct ExitStatus {
    /// The exit code, where the process ended by exiting; none where it was
    /// ended from outside, as by a signal.
    pub code: Option<i32>,
    /// The status in the platform's own words, as shown in messages.
    pub text: String,
}

impl ExitStatus {
    /// The process exited, and with code 0.
    pub open spec fn is_success(&self) -> bool {
        self.code == Some(0i32)
    }

    /// Whether the process exited with code 0.
    pub fn success(&self) -> (ok: bool)
        ensures
            ok == self.is_success(),
    {
        match self.code {
            Some(code) => code == 0,
            None => false,
        }
    }
}

/// The text that `String::from_utf8_lossy` makes of `bytes`.
pub uninterp spec fn lossy_text(bytes: Seq<u8>) -> Seq<char>;

/// Calls `String::from_utf8_lossy`, which turns bytes into text and fails on
/// none. Its result depends on the bytes alone and is named `lossy_text`.
/// Bytes that are valid UTF-8 come out as the text they encode; otherwise
/// each invalid sequence is replaced by U+FFFD, so that character occurs in
/// the result. Neither claim is proved here.
#[verifier::external_body]
fn decode_lossy(bytes: &Vec<u8>) -> (text: String)
    ensures
        text@ == lossy_text(bytes@),
        valid_utf8(bytes@) ==> text@ == decode_utf8(bytes@),
        !valid_utf8(bytes@) ==> text@.contains('\u{FFFD}'),
{
    String::from_utf8_lossy(bytes).into_owned()
}

/// `text` is what lossy decoding makes of `bytes`: the text that they encode
/// where they are valid UTF-8, and otherwise a text in which U+FFFD stands
/// for what could not be decoded.
pub open spec fn lossy_decoded(bytes: Seq<u8>, text: Seq<char>) -> bool {
    &&& text == lossy_text(bytes)
    &&& valid_utf8(bytes) ==> text == decode_utf8(bytes)
    &&& !valid_utf8(bytes) ==> text.contains('\u{FFFD}')
}

/// A text that was written out as UTF-8 is read back exactly.
pub proof fn lemma_lossy_decoded_exact(written: Seq<char>, text: Seq<char>)
    requires
        lossy_decoded(encode_utf8(written), text),
    ensures
        text == written,
{
    encode_utf8_valid_utf8(written);
    encode_utf8_decode_utf8(written);
}

/// The message of a failed command: the status, then what the command wrote
/// to standard error.
pub open spec fn failure_text(status: Seq<char>, stderr: Seq<char>) -> Seq<char> {
    "command failed with status: "@ + status + "\nstderr: "@ + stderr
}

/// Words the failure of a command that ended with `status` and wrote `stderr`
/// to standard error.
pub fn failure_message(status: &str, stderr: &str) -> (message: String)
    ensures
        message@ == failure_text(status@, stderr@),
{
    let mut message = String::from_str("command failed with status: ");
    message.append(status);
    message.append("\nstderr: ");
    message.append(stderr);
    message
}

/// The outcome of one finished run.
#[derive(Debug, PartialEq, Eq)]
pub struct CliTestOutput {
    /// How the process ended.
    pub status: ExitStatus,
    /// The bytes that it wrote to standard output.
    pub stdout: Vec<u8>,
    /// The bytes that it wrote to standard error.
    pub stderr: Vec<u8>,
}

impl CliTestOutput {
    /// Hands the outcome back if the command succeeded, and otherwise fails
    /// with the status and the text of standard error in the message.
    pub fn success(&self) -> (ret: Result<&Self, CliTestError>)
        ensures
            self.status.is_success() ==> ret == Ok::<&Self, CliTestError>(self),
            !self.status.is_success() ==> (ret matches Err(e) && e is CommandFailed
                && e.text() == failure_text(self.status.text@, lossy_text(self.stderr@))),
            !self.status.is_success() && valid_utf8(self.stderr@) ==> (ret matches Err(e)
                && e.text() == failure_text(self.status.text@, decode_utf8(self.stderr@))),
    {
        if self.status.success() {
            Ok(self)
        } else {
            let stderr = self.stderr_str();
            Err(
                CliTestError::CommandFailed(
                    failure_message(self.status.text.as_str(), stderr.as_str()),
                ),
            )
        }
    }

    /// Standard output as text, decoded lossily.
    pub fn stdout_str(&self) -> (text: String)
        ensures
            lossy_decoded(self.stdout@, text@),
    {
        decode_lossy(&self.stdout)
    }

    /// Standard error as text, decoded lossily.
    pub fn stderr_str(&self) -> (text: String)
        ensures
            lossy_decoded(self.stderr@, text@),
    {
        decode_lossy(&self.stderr)
    }
}

} // verus!
