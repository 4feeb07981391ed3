//! The command line: the version line, the help text, and what the arguments
//! ask for.
//!
//! Parsing is strict. `--replace-instance` makes this process wait on a
//! process id another one named, so an argument list that is not exactly
//! understood is refused rather than guessed at.

use crate::text::{concatenated, parse_u32, parse_u32_chars, chars_of, same_text};
use vstd::prelude::*;

verus! {

/// The version of this build.
pub const VERSION: &'static str = "1.0.1";

/// What the command line asked this process to do.
#[derive(Debug, PartialEq, Eq)]
pub enum Invocation {
    /// Open the window. `Some(pid)` is an elevated copy waiting on the
    /// unelevated one it replaces.
    Open(Option<u32>),
    /// Show one dialog and exit without opening a window.
    Report(String),
}

/// The name and version, in one line.
pub open spec fn version_text() -> Seq<char> {
    "ProcDrift "@ + VERSION@
}

/// The name and version, in one line. This is the window title as well as
/// the answer to `--version`, so a screenshot of the running program
/// identifies the build as precisely as the command line does.
pub fn version_line() -> (r: String)
    ensures
        r@ == version_text(),
{
    concatenated("ProcDrift ", VERSION)
}

/// What follows the version line in the help text.
pub const HELP_BODY: &'static str = "\n\nCompares the processes running now against a reference snapshot taken\nwhen the machine was known-good, and shows what changed.\n\nUsage: ProcDrift [--version | --help]\n\nNo option changes how it runs: it opens one window, and everything is\ndone from there. The keys are listed in the README.\n\nState is kept in %LOCALAPPDATA%\\ProcDrift\\state.json, and only after\nyou answer the first-run prompt, capture a snapshot, or change an allowance.";

/// The help text: the version line, then what the program does and how it is
/// used.
pub open spec fn help_body() -> Seq<char> {
    HELP_BODY@
}

/// The help text. There are no options that change how the program runs, so
/// this exists to name the build and to make a mistyped argument
/// recoverable rather than a bare error.
pub fn help_text() -> (r: String)
    ensures
        r@ == version_text() + help_body(),
{
    let v = version_line();
    concatenated(v.as_str(), HELP_BODY)
}

/// Whether an argument asks for the version.
pub open spec fn asks_version(a: Seq<char>) -> bool {
    a == "--version"@ || a == "-v"@
}

/// Whether an argument asks for help.
pub open spec fn asks_help(a: Seq<char>) -> bool {
    a == "--help"@ || a == "-h"@ || a == "/?"@
}

/// What the arguments (program name excluded) ask for, `r` being the
/// answer: nothing opens the window; a version or help request is answered
/// when it stands alone; `--replace-instance` must be followed by exactly
/// one process id; anything else is refused with the message the user sees.
pub open spec fn invocation_answer(a: Seq<Seq<char>>, r: Result<Invocation, String>) -> bool {
    if a.len() == 0 {
        r matches Ok(Invocation::Open(None))
    } else if asks_version(a[0]) || asks_help(a[0]) {
        if a.len() > 1 {
            r matches Err(e) && e@ == a[0] + " takes no further arguments."@
        } else if asks_version(a[0]) {
            r matches Ok(Invocation::Report(t)) && t@ == version_text()
        } else {
            r matches Ok(Invocation::Report(t)) && t@ == version_text() + help_body()
        }
    } else if a[0] != "--replace-instance"@ {
        r matches Err(e) && e@ == "Unrecognized argument: "@ + a[0]
            + "\n\nRun ProcDrift --help for the ones it accepts."@
    } else if a.len() == 1 {
        r matches Err(e) && e@ == "--replace-instance requires a PID"@
    } else if parse_u32(a[1]) is None {
        r matches Err(e) && e@ == "--replace-instance PID is invalid"@
    } else if a.len() > 2 {
        r matches Err(e) && e@ == "unexpected arguments after --replace-instance PID"@
    } else {
        r matches Ok(Invocation::Open(Some(pid))) && Some(pid) == parse_u32(a[1])
    }
}

/// The texts of a list of arguments.
pub open spec fn argument_texts(args: Seq<String>) -> Seq<Seq<char>> {
    args.map_values(|s: String| s@)
}

/// Reads the command line (program name excluded); see `invocation_answer`.
pub fn invocation(args: Vec<String>) -> (r: Result<Invocation, String>)
    ensures
        invocation_answer(argument_texts(args@), r),
{
    let ghost a = argument_texts(args@);
    if args.len() == 0 {
        return Ok(Invocation::Open(None));
    }
    let argument = args[0].as_str();
    assert(a[0] == argument@);
    let wants_version = same_text(argument, "--version") || same_text(argument, "-v");
    let wants_help = same_text(argument, "--help") || same_text(argument, "-h") || same_text(
        argument,
        "/?",
    );
    if wants_version || wants_help {
        if args.len() > 1 {
            return Err(concatenated(argument, " takes no further arguments."));
        }
        if wants_version {
            return Ok(Invocation::Report(version_line()));
        }
        return Ok(Invocation::Report(help_text()));
    }
    if !same_text(argument, "--replace-instance") {
        let head = concatenated("Unrecognized argument: ", argument);
        return Err(concatenated(head.as_str(), "\n\nRun ProcDrift --help for the ones it accepts."));
    }
    if args.len() < 2 {
        return Err("--replace-instance requires a PID".to_owned());
    }
    assert(a[1] == args@[1]@);
    let digits = chars_of(args[1].as_str());
    let pid = match parse_u32_chars(&digits) {
        Some(pid) => pid,
        None => {
            return Err("--replace-instance PID is invalid".to_owned());
        },
    };
    if args.len() > 2 {
        return Err("unexpected arguments after --replace-instance PID".to_owned());
    }
    Ok(Invocation::Open(Some(pid)))
}

} // verus!
