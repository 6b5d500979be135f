//! The command line of the test runner, as plain values.

use vstd::prelude::*;

verus! {

/// Run golden, property and fuzz tests for trading strategies against the
/// deterministic backtest engine, and gate CI on the result.
#[derive(Debug)]
pub struct Cli {
    pub command: Command,
}

/// What the command line asks for.
#[derive(Debug)]
pub enum Command {
    /// Run a test or a directory of tests; exits non-zero if any test fails.
    Run {
        /// A test JSON file, or a directory searched recursively for `*.json`.
        path: String,
        /// Directory of `<SYMBOL>.csv` candle files.
        data: String,
        /// Output format.
        format: Format,
        /// Stop rendering after the first failing test (text output only).
        fail_fast: bool,
    },
    /// Re-run tests and write their fresh reports back as the `expected` golden.
    Bless {
        /// A test JSON file, or a directory searched recursively for `*.json`.
        path: String,
        /// Directory of `<SYMBOL>.csv` candle files.
        data: String,
    },
    /// List the test ids found under a path.
    List {
        /// A test JSON file, or a directory searched recursively for `*.json`.
        path: String,
    },
    /// Print the version.
    Version,
}

/// How `run` prints the suite.
#[derive(Clone, Copy, Debug, PartialEq, Eq, Structural)]
pub enum Format {
    Text,
    Json,
}

/// What the process exits with after `run`: success only when no test failed.
pub fn exit_success(failed: usize) -> (ok: bool)
    ensures
        ok == (failed == 0),
{
    failed == 0
}

} // verus!
