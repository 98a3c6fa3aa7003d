//! The library's error type and the text that reports it.
use vstd::prelude::*;
use crate::text::{push_signed_decimal, push_str, signed_decimal};

verus! {

/// Everything that makes a run fail (exit code 2).
#[derive(Debug, Clone, PartialEq, Eq)]
pub enum Error {
    /// The tsconfig could not be read; `reason` is the I/O error's text.
    TsconfigRead { path: String, reason: String },
    /// The tsconfig is not valid JSONC.
    TsconfigParse { path: String, message: String },
    /// An `extends` target could not be resolved.
    ExtendsNotFound { target: String, from: String },
    /// No TypeScript compiler binary was found.
    TsgoNotFound,
    /// The compiler ran and failed without diagnostics to report.
    TsgoFailed { exit_code: i32, stderr: String },
    /// The compiler could not be started; the I/O error's text.
    TsgoSpawn(String),
    /// Any other failure, with its message.
    Msg(String),
}

/// The text of [`Error::TsgoNotFound`].
pub open spec fn not_found_text() -> Seq<char> {
    "unable to locate the TypeScript compiler (install typescript@7 or later, set TSGO_BINARY to a tsc/tsgo binary, or add one to PATH)"@
}

/// The user-facing text of an error.
pub open spec fn error_text(e: Error) -> Seq<char> {
    match e {
        Error::TsconfigRead { path, reason } => "unable to read tsconfig at "@ + path@ + ": "@
            + reason@,
        Error::TsconfigParse { path, message } => "unable to parse tsconfig at "@ + path@ + ": "@
            + message@,
        Error::ExtendsNotFound { target, from } => "cannot find extends target '"@ + target@
            + "' referenced from "@ + from@,
        Error::TsgoNotFound => not_found_text(),
        Error::TsgoFailed { exit_code, stderr } => "tsgo exited with exit code "@ + signed_decimal(
            exit_code as int,
        ) + ": "@ + stderr@,
        Error::TsgoSpawn(reason) => "tsgo invocation failed: "@ + reason@,
        Error::Msg(m) => m@,
    }
}

impl Error {
    /// An error that carries only a message.
    pub fn msg(message: &str) -> (r: Error)
        ensures
            r matches Error::Msg(m) && m@ == message@,
    {
        Error::Msg(message.to_owned())
    }

    /// The text that reports this error.
    pub fn message(&self) -> (r: String)
        ensures
            r@ == error_text(*self),
    {
        let mut s = String::new();
        match self {
            Error::TsconfigRead { path, reason } => {
                push_str(&mut s, "unable to read tsconfig at ");
                push_str(&mut s, path.as_str());
                push_str(&mut s, ": ");
                push_str(&mut s, reason.as_str());
            },
            Error::TsconfigParse { path, message } => {
                push_str(&mut s, "unable to parse tsconfig at ");
                push_str(&mut s, path.as_str());
                push_str(&mut s, ": ");
                push_str(&mut s, message.as_str());
            },
            Error::ExtendsNotFound { target, from } => {
                push_str(&mut s, "cannot find extends target '");
                push_str(&mut s, target.as_str());
                push_str(&mut s, "' referenced from ");
                push_str(&mut s, from.as_str());
            },
            Error::TsgoNotFound => {
                push_str(
                    &mut s,
                    "unable to locate the TypeScript compiler (install typescript@7 or later, set TSGO_BINARY to a tsc/tsgo binary, or add one to PATH)",
                );
            },
            Error::TsgoFailed { exit_code, stderr } => {
                push_str(&mut s, "tsgo exited with exit code ");
                push_signed_decimal(&mut s, *exit_code as i64);
                push_str(&mut s, ": ");
                push_str(&mut s, stderr.as_str());
            },
            Error::TsgoSpawn(reason) => {
                push_str(&mut s, "tsgo invocation failed: ");
                push_str(&mut s, reason.as_str());
            },
            Error::Msg(m) => {
                push_str(&mut s, m.as_str());
            },
        }
        assert(s@ =~= error_text(*self));
        s
    }
}

} // verus!
