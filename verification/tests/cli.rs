use hintkit::cli::{init_reply, process_exit_code, Cli, Command, InitReply, VERSION};
use hintkit::pty::{
    choose_shell, ShellChoice, BRACKETED_PASTE_DISABLE, BRACKETED_PASTE_ENABLE, FALLBACK_SHELL, NO_SHELL_MESSAGE,
};
use hintkit::shell_integration::integration_for;

#[test]
fn version_matches_phase_zero_stub() {
    assert_eq!(VERSION, "0.0.0");
}

#[test]
fn init_prints_the_script() {
    for shell in ["zsh", "bash"] {
        let reply = init_reply(shell);
        assert_eq!(reply.exit_code(true), 0);
        assert_eq!(reply.exit_code(false), 1);
        match reply {
            InitReply::Script(script) => assert_eq!(Some(script), integration_for(shell)),
            other => panic!("{other:?}"),
        }
    }
}

#[test]
fn init_complains_about_an_unknown_shell() {
    let reply = init_reply("fish");
    assert_eq!(reply.exit_code(true), 2);
    assert_eq!(reply.exit_code(false), 2);
    match reply {
        InitReply::UnknownShell(message) => {
            assert_eq!(message, "hintkit: unknown shell 'fish'. Supported: zsh, bash")
        }
        other => panic!("{other:?}"),
    }
}

#[test]
fn the_scripts_differ() {
    assert_ne!(integration_for("zsh"), integration_for("bash"));
}

#[test]
fn exit_codes_are_clamped() {
    assert_eq!(process_exit_code(0), 0);
    assert_eq!(process_exit_code(42), 42);
    assert_eq!(process_exit_code(255), 255);
    assert_eq!(process_exit_code(256), 1);
    assert_eq!(process_exit_code(-1), 1);
}

#[test]
fn the_shell_comes_from_the_environment_first() {
    assert_eq!(choose_shell(Some(9), true), ShellChoice::Environment);
    assert_eq!(choose_shell(Some(9), false), ShellChoice::Environment);
    assert_eq!(choose_shell(Some(0), true), ShellChoice::Fallback);
    assert_eq!(choose_shell(None, true), ShellChoice::Fallback);
    assert_eq!(choose_shell(None, false), ShellChoice::Missing);
    assert_eq!(FALLBACK_SHELL, "/bin/sh");
    assert!(NO_SHELL_MESSAGE.starts_with("could not determine shell"));
}

#[test]
fn bracketed_paste_is_switched_by_mode_2004() {
    assert_eq!(&BRACKETED_PASTE_ENABLE, b"\x1b[?2004h");
    assert_eq!(&BRACKETED_PASTE_DISABLE, b"\x1b[?2004l");
}

#[test]
fn the_command_line_holds_an_optional_command() {
    let cli = Cli { command: Some(Command::Init { shell: "zsh".to_string() }) };
    match cli.command {
        Some(Command::Init { shell }) => assert_eq!(shell, "zsh"),
        None => panic!("no command"),
    }
}
