use hintkit::engine::{preview, request, PREVIEW_LEN};
use hintkit::matcher::{Suggestion, SuggestionKind};
use hintkit::state::{SharedState, ShellState};

#[test]
fn fresh_state_is_pre_prompt() {
    let s = SharedState::new();
    assert_eq!(s.current_state(), ShellState::PrePrompt);
    assert!(s.current_cwd().is_none());
    assert!(s.last_exit().is_none());
}

#[test]
fn full_lifecycle_a_b_c_d() {
    let mut s = SharedState::new();
    s.on_prompt_start();
    assert_eq!(s.current_state(), ShellState::AtPrompt);
    s.on_command_input_marker();
    assert_eq!(s.current_state(), ShellState::AtPrompt);
    s.on_command_start();
    assert_eq!(s.current_state(), ShellState::CommandRunning);
    s.on_command_done(Some(0));
    assert_eq!(s.current_state(), ShellState::PrePrompt);
    assert_eq!(s.last_exit(), Some(0));
}

#[test]
fn lone_b_marker_promotes_pre_prompt_to_at_prompt() {
    let mut s = SharedState::new();
    s.on_command_input_marker();
    assert_eq!(s.current_state(), ShellState::AtPrompt);
}

#[test]
fn cwd_updates_persist() {
    let mut s = SharedState::new();
    s.on_cwd("/tmp");
    assert_eq!(s.current_cwd().as_deref(), Some("/tmp"));
    s.on_cwd("/home/test");
    assert_eq!(s.current_cwd().as_deref(), Some("/home/test"));
}

#[test]
fn a_missing_exit_code_keeps_the_last_one() {
    let mut s = SharedState::default();
    s.on_command_done(Some(3));
    s.on_command_start();
    s.on_command_done(None);
    assert_eq!(s.last_exit(), Some(3));
}

#[test]
fn a_marker_while_a_command_runs_changes_nothing() {
    let mut s = SharedState::new();
    s.on_command_start();
    s.on_command_input_marker();
    assert_eq!(s.current_state(), ShellState::CommandRunning);
}

#[test]
fn the_line_is_kept_apart_from_the_shell_state() {
    let mut s = SharedState::new();
    assert_eq!(s.current_line(), (String::new(), 0));
    s.on_line_update("git st".to_string(), 6);
    s.on_prompt_start();
    assert_eq!(s.current_line(), ("git st".to_string(), 6));
}

#[test]
fn a_request_needs_a_prompt_and_a_line() {
    let mut s = SharedState::new();
    s.on_line_update("git ".to_string(), 4);
    assert!(request(&s).is_none());
    s.on_prompt_start();
    let q = request(&s).unwrap();
    assert_eq!((q.line.as_str(), q.cursor, q.cwd.as_str()), ("git ", 4, "."));
    s.on_cwd("/work");
    assert_eq!(request(&s).unwrap().cwd, "/work");
    s.on_command_start();
    assert!(request(&s).is_none());
    s.on_prompt_start();
    s.on_line_update(String::new(), 0);
    assert!(request(&s).is_none());
}

#[test]
fn a_preview_shows_the_first_five() {
    let list: Vec<Suggestion> = (0..7)
        .map(|i| Suggestion { text: format!("s{i}"), description: None, kind: SuggestionKind::StaticArg })
        .collect();
    assert_eq!(preview(&list), vec!["s0", "s1", "s2", "s3", "s4"]);
    assert_eq!(preview(&list[..2].to_vec()), vec!["s0", "s1"]);
    assert_eq!(PREVIEW_LEN, 5);
}
