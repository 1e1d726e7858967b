//! What the pseudo-terminal wrapper is started with.

use vstd::prelude::*;

verus! {

/// CSI sequence that asks the terminal to enable bracketed-paste mode. Once
/// enabled, pasted text is wrapped in `ESC [ 200 ~` and `ESC [ 201 ~`.
pub const BRACKETED_PASTE_ENABLE: [u8; 8] = [0x1b, 0x5b, 0x3f, 0x32, 0x30, 0x30, 0x34, 0x68];

/// CSI sequence that disables bracketed-paste mode.
pub const BRACKETED_PASTE_DISABLE: [u8; 8] = [0x1b, 0x5b, 0x3f, 0x32, 0x30, 0x30, 0x34, 0x6c];

/// The shell to run where the environment names none.
pub const FALLBACK_SHELL: &'static str = "/bin/sh";

/// The complaint where there is no shell to run.
pub const NO_SHELL_MESSAGE: &'static str = "could not determine shell: $SHELL is unset and /bin/sh is missing";

/// Which shell to run.
#[derive(Debug, Clone, Copy, PartialEq, Eq, Structural)]
pub enum ShellChoice {
    /// The one that `$SHELL` names.
    Environment,
    /// [`FALLBACK_SHELL`].
    Fallback,
    /// None; the complaint is [`NO_SHELL_MESSAGE`].
    Missing,
}

/// Resolve the shell to run. Prefers `$SHELL`, unless it is unset or empty, and
/// falls back to [`FALLBACK_SHELL`] if that exists. `shell_var_len` is the
/// length of `$SHELL`, if it is set.
pub fn choose_shell(shell_var_len: Option<usize>, fallback_exists: bool) -> (r: ShellChoice)
    ensures
        r is Environment <==> (shell_var_len matches Some(n) && n > 0),
        r is Fallback <==> !(shell_var_len matches Some(n) && n > 0) && fallback_exists,
        r is Missing <==> !(shell_var_len matches Some(n) && n > 0) && !fallback_exists,
{
    if let Some(n) = shell_var_len {
        if n > 0 {
            return ShellChoice::Environment;
        }
    }
    if fallback_exists {
        ShellChoice::Fallback
    } else {
        ShellChoice::Missing
    }
}

} // verus!
