//! Command-line conventions: the exit codes, and the exit code and the
//! `error: <message>` line of a command's outcome.

use vstd::prelude::*;

use crate::json::{compact_form, compact_text, json_compact, model, plain_json, Json};
use crate::text::{append_str, chars_of, string_of};

verus! {

/// Exit code: no error.
pub const EXIT_OK: u8 = 0;

/// Exit code: errors found (e.g. config errors, a rejected event, a failed
/// hook).
pub const EXIT_ERRORS: u8 = 1;

/// Exit code: a usage or internal error, reported on stderr.
pub const EXIT_FAILURE: u8 = 2;

/// Why a command failed: its message, and whether the failure is, or is
/// caused by, a closed downstream pipe.
#[derive(Debug)]
pub struct Failure {
    /// The error's text.
    pub message: String,
    /// Whether the error is a broken pipe.
    pub broken_pipe: bool,
}

/// The exit code of a command's outcome and the line for stderr: a broken
/// pipe is a clean exit (the reader went away, which is not the command's
/// failure); any other failure is `error: <message>` and exit 2.
pub open spec fn exit_of(result: Result<u8, (Seq<char>, bool)>) -> (u8, Option<Seq<char>>) {
    match result {
        Ok(code) => (code, None),
        Err((m, pipe)) => if pipe {
            (EXIT_OK, None)
        } else {
            (EXIT_FAILURE, Some("error: "@ + m + "\n"@))
        },
    }
}

/// The plain outcome of a command.
pub open spec fn outcome_of(r: Result<u8, Failure>) -> Result<u8, (Seq<char>, bool)> {
    match r {
        Ok(c) => Ok(c),
        Err(f) => Err((f.message@, f.broken_pipe)),
    }
}

/// The exit code of a command's result, and the `error: <message>` line
/// for stderr of a failure. A broken pipe is a clean exit.
pub fn exit_code(result: &Result<u8, Failure>) -> (r: (u8, Option<String>))
    ensures
        (r.0, match r.1 {
            Some(s) => Some(s@),
            None => None::<Seq<char>>,
        }) == exit_of(outcome_of(*result)),
{
    match result {
        Ok(code) => (*code, None),
        Err(f) => if f.broken_pipe {
            (EXIT_OK, None)
        } else {
            let mut out = chars_of("error: ");
            append_str(&mut out, f.message.as_str());
            out.push('\n');
            proof {
                reveal_strlit("error: ");
                reveal_strlit("\n");
            }
            (EXIT_FAILURE, Some(string_of(&out)))
        },
    }
}

/// `value` as one compact JSON object and a newline, nothing else.
pub fn json_line(value: &Json) -> (s: String)
    ensures
        s@ == json_compact(model(*value)) + "\n"@,
        plain_json(model(*value)) ==> s@ == compact_form(model(*value)) + "\n"@,
{
    let mut out = chars_of(compact_text(value).as_str());
    out.push('\n');
    proof {
        reveal_strlit("\n");
    }
    string_of(&out)
}

} // verus!
