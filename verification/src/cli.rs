//! The command line: without arguments the wrapper runs, and `init <shell>`
//! prints a shell-integration script.

use vstd::prelude::*;
use vstd::string::*;

use crate::shell_integration;

verus! {

/// The version of the program.
pub const VERSION: &'static str = "0.0.0";

/// The parsed command line.
#[derive(Debug)]
pub struct Cli {
    pub command: Option<Command>,
}

#[derive(Debug)]
pub enum Command {
    /// Print the shell-integration script for `<shell>` to stdout.
    Init {
        /// One of `zsh`, `bash`.
        shell: String,
    },
}

/// What the `init` subcommand prints, and where.
#[derive(Debug)]
pub enum InitReply {
    /// The script, for standard output, as it is: no newline is added.
    Script(&'static str),
    /// The complaint, for standard error.
    UnknownShell(String),
}

/// Exit code of `init` where the script was printed.
pub const EXIT_OK: i32 = 0;

/// Exit code of `init` where the script could not be written.
pub const EXIT_WRITE_FAILED: i32 = 1;

/// Exit code of `init` for an unknown shell: invalid arguments.
pub const EXIT_USAGE: i32 = 2;

/// The exit code that goes with a reply, given whether printing it worked. A
/// complaint that could not be printed is still a complaint.
pub open spec fn code_of(reply: InitReply, written: bool) -> i32 {
    match reply {
        InitReply::Script(_) => if written {
            EXIT_OK
        } else {
            EXIT_WRITE_FAILED
        },
        InitReply::UnknownShell(_) => EXIT_USAGE,
    }
}

/// The shells of a list, with a comma and a space between them.
pub open spec fn joined(list: Seq<Seq<char>>) -> Seq<char>
    decreases list.len(),
{
    if list.len() == 0 {
        seq![]
    } else if list.len() == 1 {
        list[0]
    } else {
        joined(list.drop_last()) + ", "@ + list.last()
    }
}

/// The complaint about an unknown shell.
pub open spec fn unknown_shell_message(shell: Seq<char>) -> Seq<char> {
    "hintkit: unknown shell '"@ + shell + "'. Supported: "@ + joined(
        shell_integration::SUPPORTED_SHELLS@.map_values(|s: &str| s@),
    )
}

impl InitReply {
    /// The exit code that goes with this reply, given whether printing it
    /// worked.
    pub fn exit_code(&self, written: bool) -> (r: i32)
        ensures
            r == code_of(*self, written),
    {
        match self {
            InitReply::Script(_) => if written {
                EXIT_OK
            } else {
                EXIT_WRITE_FAILED
            },
            InitReply::UnknownShell(_) => EXIT_USAGE,
        }
    }
}

/// What `init <shell>` prints.
pub fn init_reply(shell: &str) -> (r: InitReply)
    ensures
        match r {
            InitReply::Script(script) => shell_integration::script_for(shell@) == Some(script@),
            InitReply::UnknownShell(message) => shell_integration::script_for(shell@) is None && message@
                == unknown_shell_message(shell@),
        },
{
    match shell_integration::integration_for(shell) {
        Some(script) => InitReply::Script(script),
        None => {
            let mut message = String::from_str("hintkit: unknown shell '");
            message.append(shell);
            message.append("'. Supported: ");
            message.append(supported_shells().as_str());
            InitReply::UnknownShell(message)
        },
    }
}

/// The names of the supported shells, joined.
fn supported_shells() -> (r: String)
    ensures
        r@ == joined(shell_integration::SUPPORTED_SHELLS@.map_values(|s: &str| s@)),
{
    let shells = shell_integration::SUPPORTED_SHELLS;
    let ghost names = shells@.map_values(|s: &str| s@);
    let mut r = String::from_str(shells[0]);
    let mut i: usize = 1;
    assert(names.take(1) =~= seq![names[0]]);
    while i < shells.len()
        invariant
            1 <= i <= shells@.len(),
            names == shells@.map_values(|s: &str| s@),
            r@ == joined(names.take(i as int)),
        decreases shells@.len() - i,
    {
        proof {
            assert(names.take(i + 1).drop_last() =~= names.take(i as int));
            assert(names.take(i + 1).last() == shells@[i as int]@);
        }
        r.append(", ");
        r.append(shells[i]);
        i += 1;
    }
    assert(names.take(names.len() as int) =~= names);
    r
}

/// The exit code of the program for the exit code of the wrapped shell. What
/// does not fit in a byte becomes a general failure.
pub fn process_exit_code(code: i32) -> (r: u8)
    ensures
        r == (if 0 <= code <= 255 {
            code as int
        } else {
            1
        }),
{
    if 0 <= code && code <= 255 {
        code as u8
    } else {
        1
    }
}

/// The complaint names the unknown shell and the shells that are supported.
pub proof fn law_complaint_names_the_shells(shell: Seq<char>)
    ensures
        unknown_shell_message(shell) == "hintkit: unknown shell '"@ + shell + "'. Supported: zsh, bash"@,
{
    let names = shell_integration::SUPPORTED_SHELLS@.map_values(|s: &str| s@);
    reveal_strlit("zsh");
    reveal_strlit("bash");
    reveal_strlit(", ");
    reveal_strlit("'. Supported: ");
    reveal_strlit("'. Supported: zsh, bash");
    assert(names[0] == "zsh"@);
    assert(names[1] == "bash"@);
    assert(names.drop_last() =~= seq!["zsh"@]);
    reveal_with_fuel(joined, 2);
    assert(joined(names) =~= "zsh"@ + ", "@ + "bash"@);
    assert("'. Supported: "@ + joined(names) =~= "'. Supported: zsh, bash"@);
    assert(unknown_shell_message(shell) =~= "hintkit: unknown shell '"@ + shell + "'. Supported: zsh, bash"@);
}

/// Printing a script succeeds or fails with the printing; an unknown shell is a
/// wrong argument either way.
pub proof fn law_exit_codes(reply: InitReply)
    ensures
        reply is Script ==> code_of(reply, true) == 0 && code_of(reply, false) == 1,
        reply is UnknownShell ==> code_of(reply, true) == 2 && code_of(reply, false) == 2,
{
}

} // verus!
