//! Support for tests of a command-line program: a configuration that says
//! what to start and how, and the outcome of a finished run with checks on
//! its status and its output.

pub mod error;
pub mod model;
pub mod output;
pub mod setup;
pub mod text;

pub use error::CliTestError;
pub use output::CliTestOutput;
pub use output::ExitStatus;
pub use setup::CliTestSetup;
pub use setup::Invocation;
