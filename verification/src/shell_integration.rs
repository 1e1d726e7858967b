//! The per-shell integration scripts that `hintkit init <shell>` prints.
//!
//! A script does nothing outside the wrapper. Under it, it makes the shell
//! report where it is in its prompt cycle (OSC 133) and its working directory
//! (OSC 7).

use vstd::prelude::*;

use crate::text;

verus! {

/// The integration script for zsh.
pub const ZSH_INTEGRATION: &'static str = r#"# hintkit shell integration for zsh.

if [[ -n "${HINTKIT_WRAPPED:-}" && -z "${__hintkit_loaded:-}" ]]; then
  __hintkit_loaded=1
  __hintkit_running=''

  __hintkit_precmd() {
    local exit_code=$?
    if [[ -n "$__hintkit_running" ]]; then
      printf '\e]133;D;%s\e\\' "$exit_code"
      __hintkit_running=''
    fi
    printf '\e]7;file://%s%s\e\\' "$HOST" "$PWD"
    printf '\e]133;A\e\\'
  }

  __hintkit_preexec() {
    __hintkit_running=1
    printf '\e]133;C\e\\'
  }

  autoload -Uz add-zsh-hook
  add-zsh-hook precmd __hintkit_precmd
  add-zsh-hook preexec __hintkit_preexec
  PS1="${PS1}%{"$'\e]133;B\e\\'"%}"
fi
"#;

/// The integration script for bash.
pub const BASH_INTEGRATION: &'static str = r#"# hintkit shell integration for bash.

if [[ -n "${HINTKIT_WRAPPED:-}" && -z "${__hintkit_loaded:-}" ]]; then
  __hintkit_loaded=1
  __hintkit_running=''
  __hintkit_at_prompt=''
  __hintkit_status=0

  __hintkit_before_prompt() {
    __hintkit_status=$?
    __hintkit_at_prompt=''
    return "$__hintkit_status"
  }

  __hintkit_precmd() {
    if [[ -n "$__hintkit_running" ]]; then
      printf '\e]133;D;%s\e\\' "$__hintkit_status"
      __hintkit_running=''
    fi
    printf '\e]7;file://%s%s\e\\' "${HOST:-$HOSTNAME}" "$PWD"
    printf '\e]133;A\e\\'
    __hintkit_at_prompt=1
  }

  __hintkit_preexec() {
    [[ -n "$__hintkit_at_prompt" && "$BASH_COMMAND" != __hintkit_* ]] || return 0
    __hintkit_at_prompt=''
    __hintkit_running=1
    printf '\e]133;C\e\\'
  }

  PROMPT_COMMAND=$'__hintkit_before_prompt\n'"${PROMPT_COMMAND:-}"$'\n__hintkit_precmd'
  trap '__hintkit_preexec' DEBUG
  PS1="${PS1}\[\e]133;B\e\\\\\]"
fi
"#;

/// Names of every shell with an integration script.
pub const SUPPORTED_SHELLS: [&'static str; 2] = ["zsh", "bash"];

/// The integration script for a shell name, if the shell is supported.
pub open spec fn script_for(shell: Seq<char>) -> Option<Seq<char>> {
    if shell == "zsh"@ {
        Some(ZSH_INTEGRATION@)
    } else if shell == "bash"@ {
        Some(BASH_INTEGRATION@)
    } else {
        None
    }
}

/// Return the integration script for a supported shell name. Returns `None` if
/// the shell isn't one of the supported set (`zsh`, `bash`).
pub fn integration_for(shell: &str) -> (r: Option<&'static str>)
    ensures
        match r {
            Some(script) => script_for(shell@) == Some(script@),
            None => script_for(shell@) is None,
        },
{
    if text::same_text(shell, "zsh") {
        Some(ZSH_INTEGRATION)
    } else if text::same_text(shell, "bash") {
        Some(BASH_INTEGRATION)
    } else {
        None
    }
}

/// The supported shells are exactly those with a script.
pub proof fn law_supported_shells_have_a_script(shell: Seq<char>)
    ensures
        script_for(shell) is Some <==> exists|i: int|
            0 <= i < SUPPORTED_SHELLS@.len() && #[trigger] SUPPORTED_SHELLS@[i]@ == shell,
{
    assert(SUPPORTED_SHELLS@[0]@ == "zsh"@);
    assert(SUPPORTED_SHELLS@[1]@ == "bash"@);
}

} // verus!
