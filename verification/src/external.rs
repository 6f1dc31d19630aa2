//! External subcommands: `relate NAME ARGS...` runs the program `relate-NAME`.
use vstd::prelude::*;
use crate::text::{chars_of, concat, has_prefix, starts_with, string_of};

verus! {

/// The program that runs an external subcommand.
pub open spec fn binary_for(name: Seq<char>) -> Seq<char> {
    "relate-"@ + name
}

pub fn extension_binary(name: &str) -> (r: String)
    ensures
        r@ == binary_for(name@),
{
    concat("relate-", name)
}

/// The subcommand's name: the program's name without `relate-`, or the whole
/// name when it does not start so.
pub open spec fn subcommand_of(binary: Seq<char>) -> Seq<char> {
    if has_prefix(binary, "relate-"@) {
        binary.skip(7)
    } else {
        binary
    }
}

pub fn subcommand_name(binary: &str) -> (r: String)
    ensures
        r@ == subcommand_of(binary@),
{
    let cs = chars_of(binary);
    let p = chars_of("relate-");
    proof {
        reveal_strlit("relate-");
    }
    if starts_with(cs.as_slice(), p.as_slice()) {
        let r = string_of(&cs.as_slice()[7..cs.len()]);
        assert(r@ =~= binary@.skip(7));
        r
    } else {
        binary.to_string()
    }
}

/// Why an external subcommand could not be started.
#[derive(Debug)]
pub enum ExecFailure {
    /// No such program on the `PATH`.
    NotFound,
    /// The program exists and may not be run.
    PermissionDenied,
    /// Any other failure, with its text.
    Other(String),
}

/// The status the process exits with, and the message it prints.
pub open spec fn failure_report(binary: Seq<char>, f: ExecFailure) -> (i32, Seq<char>) {
    match f {
        ExecFailure::NotFound => (
            127,
            "error: external subcommand `"@ + binary + "` not found on PATH — install it to use `relate "@
                + subcommand_of(binary) + "`"@,
        ),
        ExecFailure::PermissionDenied => (
            126,
            "error: external subcommand `"@ + binary + "` exists but is not executable — check file permissions"@,
        ),
        ExecFailure::Other(e) => (1, "error: failed to execute `"@ + binary + "`: "@ + e@),
    }
}

pub fn exec_failure_report(binary: &str, f: &ExecFailure) -> (r: (i32, String))
    ensures
        (r.0, r.1@) == failure_report(binary@, *f),
{
    match f {
        ExecFailure::NotFound => {
            let name = subcommand_name(binary);
            let mut m = concat("error: external subcommand `", binary);
            m = concat(m.as_str(), "` not found on PATH — install it to use `relate ");
            m = concat(m.as_str(), name.as_str());
            (127, concat(m.as_str(), "`"))
        },
        ExecFailure::PermissionDenied => {
            let m = concat("error: external subcommand `", binary);
            (126, concat(m.as_str(), "` exists but is not executable — check file permissions"))
        },
        ExecFailure::Other(e) => {
            let mut m = concat("error: failed to execute `", binary);
            m = concat(m.as_str(), "`: ");
            (1, concat(m.as_str(), e.as_str()))
        },
    }
}

} // verus!
