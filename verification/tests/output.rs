use hintkit::input::InputModel;
use hintkit::output::{apply_event, observe_chunk, report_event, OscEvent, OscParser, MAX_OSC_PAYLOAD};
use hintkit::state::{SharedState, ShellState};

fn feed(parser: &mut OscParser, bytes: &[u8]) -> Vec<OscEvent> {
    let mut events = Vec::new();
    for &b in bytes {
        if let Some(e) = parser.observe(b) {
            events.push(e);
        }
    }
    events
}

#[test]
fn osc_133_a_with_st_terminator() {
    let mut p = OscParser::new();
    let events = feed(&mut p, b"\x1b]133;A\x1b\\");
    assert_eq!(events, vec![OscEvent::Osc133PromptStart]);
}

#[test]
fn osc_133_a_with_bel_terminator() {
    let mut p = OscParser::new();
    let events = feed(&mut p, b"\x1b]133;A\x07");
    assert_eq!(events, vec![OscEvent::Osc133PromptStart]);
}

#[test]
fn osc_133_d_with_exit_code() {
    let mut p = OscParser::new();
    let events = feed(&mut p, b"\x1b]133;D;42\x1b\\");
    assert_eq!(events, vec![OscEvent::Osc133CommandDone(Some(42))]);
}

#[test]
fn osc_133_d_without_exit_code() {
    let mut p = OscParser::new();
    let events = feed(&mut p, b"\x1b]133;D\x1b\\");
    assert_eq!(events, vec![OscEvent::Osc133CommandDone(None)]);
}

#[test]
fn osc_7_cwd() {
    let mut p = OscParser::new();
    let events = feed(&mut p, b"\x1b]7;file://localhost/tmp/foo\x1b\\");
    assert_eq!(events, vec![OscEvent::Osc7Cwd("/tmp/foo".to_string())]);
}

#[test]
fn osc_7_cwd_with_empty_host() {
    let mut p = OscParser::new();
    let events = feed(&mut p, b"\x1b]7;file:///tmp/foo\x1b\\");
    assert_eq!(events, vec![OscEvent::Osc7Cwd("/tmp/foo".to_string())]);
}

#[test]
fn osc_split_across_buffers() {
    let mut p = OscParser::new();
    let mut events = feed(&mut p, b"\x1b]133");
    events.extend(feed(&mut p, b";A\x1b"));
    events.extend(feed(&mut p, b"\\"));
    assert_eq!(events, vec![OscEvent::Osc133PromptStart]);
}

#[test]
fn garbage_between_oscs_is_ignored() {
    let mut p = OscParser::new();
    let events = feed(
        &mut p,
        b"hello world\x1b]133;A\x1b\\some text\x1b]133;C\x07tail",
    );
    assert_eq!(
        events,
        vec![OscEvent::Osc133PromptStart, OscEvent::Osc133CommandStart,]
    );
}

#[test]
fn unknown_osc_code_is_dropped() {
    let mut p = OscParser::new();
    let events = feed(&mut p, b"\x1b]9001;hello\x1b\\");
    assert!(events.is_empty());
}

#[test]
fn unknown_133_subcode_is_dropped() {
    let mut p = OscParser::new();
    let events = feed(&mut p, b"\x1b]133;Z\x1b\\");
    assert!(events.is_empty());
}

#[test]
fn malformed_oversize_buffer_does_not_panic() {
    let mut p = OscParser::new();
    let mut payload = b"\x1b]133;A".to_vec();
    payload.extend(std::iter::repeat(b'x').take(MAX_OSC_PAYLOAD * 2));
    payload.extend(b"\x1b\\");
    let _ = feed(&mut p, &payload);
    // Parser should still accept a fresh OSC after recovery.
    let events = feed(&mut p, b"\x1b]133;A\x1b\\");
    assert_eq!(events, vec![OscEvent::Osc133PromptStart]);
}

#[test]
fn esc_in_params_is_recovered() {
    // ESC followed by a non-`\` byte: the first ESC is body content.
    // After it, the parser should keep accumulating.
    let mut p = OscParser::new();
    // \e]7;file:///\eX\e\\  -- a stray ESC then 'X' then ST.
    let events = feed(&mut p, b"\x1b]7;file:///\x1bX\x1b\\");
    // This should parse OSC 7 with path "/\x1bX" — slightly odd
    // but the parser shouldn't drop the whole sequence.
    match events.as_slice() {
        [OscEvent::Osc7Cwd(_)] => {}
        other => panic!("expected one Osc7Cwd event, got {other:?}"),
    }
}

/// Full lifecycle through parser + apply_event + state.
/// Simulates what a real zsh+integration would emit during one
/// prompt → command → exit cycle, and checks the SharedState
/// reflects each transition.
#[test]
fn parser_drives_state_through_full_lifecycle() {
    let mut state = SharedState::new();
    let mut parser = OscParser::new();
    assert_eq!(state.current_state(), ShellState::PrePrompt);

    // Prompt being drawn: A then B (inside PROMPT). Mixed with the
    // prompt text the shell itself emits to stdout.
    for &b in b"\x1b]133;A\x1b\\zsh-test% \x1b]133;B\x1b\\" {
        if let Some(e) = parser.observe(b) {
            apply_event(&mut state, e);
        }
    }
    assert_eq!(state.current_state(), ShellState::AtPrompt);

    // User pressed Enter; OSC 7 cwd report fires first (preexec hooks
    // often update cwd), then C marks command execution.
    for &b in b"\x1b]7;file://localhost/tmp/work\x1b\\\x1b]133;C\x1b\\" {
        if let Some(e) = parser.observe(b) {
            apply_event(&mut state, e);
        }
    }
    assert_eq!(state.current_state(), ShellState::CommandRunning);
    assert_eq!(state.current_cwd().as_deref(), Some("/tmp/work"));

    // Command finished with exit 7; D reports it. State returns to
    // PrePrompt (next prompt's A will move us back to AtPrompt).
    for &b in b"\x1b]133;D;7\x1b\\" {
        if let Some(e) = parser.observe(b) {
            apply_event(&mut state, e);
        }
    }
    assert_eq!(state.current_state(), ShellState::PrePrompt);
    assert_eq!(state.last_exit(), Some(7));

    // Second prompt cycle confirms we cleanly loop.
    for &b in b"\x1b]133;A\x1b\\" {
        if let Some(e) = parser.observe(b) {
            apply_event(&mut state, e);
        }
    }
    assert_eq!(state.current_state(), ShellState::AtPrompt);
}

#[test]
fn every_terminator_and_split_gives_the_same_events() {
    let input: &[u8] = b"x\x1b]133;D;3\x07y\x1b]7;file://h/a b\x1b\\\x1b[0m\x1b]133;B\x07";
    let expected = vec![
        OscEvent::Osc133CommandDone(Some(3)),
        OscEvent::Osc7Cwd("/a b".to_string()),
        OscEvent::Osc133CommandInputStart,
    ];
    for at in 0..=input.len() {
        let mut p = OscParser::new();
        let mut events = feed(&mut p, &input[..at]);
        events.extend(feed(&mut p, &input[at..]));
        assert_eq!(events, expected);
    }
}

#[test]
fn exit_codes_are_read_as_i32() {
    let cases: [(&[u8], Option<i32>); 8] = [
        (b"0", Some(0)),
        (b"-1", Some(-1)),
        (b"+7", Some(7)),
        (b"2147483647", Some(2147483647)),
        (b"2147483648", None),
        (b"", None),
        (b"7x", None),
        (b"-", None),
    ];
    for (text, code) in cases {
        let mut input = b"\x1b]133;D;".to_vec();
        input.extend(text);
        input.push(0x07);
        assert_eq!(feed(&mut OscParser::new(), &input), vec![OscEvent::Osc133CommandDone(code)]);
    }
}

#[test]
fn a_body_that_is_no_text_is_dropped() {
    assert!(feed(&mut OscParser::new(), b"\x1b]7;file://h/\xff\x07").is_empty());
    assert!(feed(&mut OscParser::new(), b"\x1b]133\x07").is_empty());
    assert!(feed(&mut OscParser::new(), b"\x1b]\x07").is_empty());
}

#[test]
fn a_working_directory_starts_at_the_first_slash() {
    let cases: [(&[u8], &str); 5] =
        [(b"file://h/x", "/x"), (b"/x/y", "/x/y"), (b"h/x", "/x"), (b"http://h/x", "//h/x"), (b"x", "x")];
    for (text, path) in cases {
        let mut input = b"\x1b]7;".to_vec();
        input.extend(text);
        input.push(0x07);
        assert_eq!(feed(&mut OscParser::new(), &input), vec![OscEvent::Osc7Cwd(path.to_string())]);
    }
}

#[test]
fn an_oversize_body_is_dropped_and_forgotten() {
    let mut p = OscParser::new();
    let mut input = b"\x1b]".to_vec();
    input.extend(std::iter::repeat(b'x').take(MAX_OSC_PAYLOAD + 1));
    assert!(feed(&mut p, &input).is_empty());
    assert_eq!(feed(&mut p, b"tail\x1b]133;C\x07"), vec![OscEvent::Osc133CommandStart]);
}

#[test]
fn a_chunk_is_applied_event_by_event() {
    let mut state = SharedState::new();
    let mut typed = InputModel::new();
    let mut parser = OscParser::default();
    observe_chunk(
        &mut parser,
        &mut state,
        &mut typed,
        b"\x1b]133;A\x07$ \x1b]7;file:///w\x07ls\x1b]133;C\x07\x1b]133;D;2",
    );
    assert_eq!(state.current_state(), ShellState::CommandRunning);
    assert_eq!(state.current_cwd().as_deref(), Some("/w"));
    assert_eq!(state.last_exit(), None);
    observe_chunk(&mut parser, &mut state, &mut typed, b"\x07");
    assert_eq!(state.current_state(), ShellState::PrePrompt);
    assert_eq!(state.last_exit(), Some(2));
}

#[test]
fn a_prompt_or_a_command_starts_a_new_line() {
    for event in [OscEvent::Osc133PromptStart, OscEvent::Osc133CommandStart] {
        let mut state = SharedState::new();
        let mut typed = InputModel::new();
        let (line, cursor) = typed.observe_chunk(b"git st").line_update.unwrap();
        state.on_line_update(line, cursor);
        report_event(&mut state, &mut typed, event);
        assert_eq!(state.current_line(), (String::new(), 0));
        assert_eq!(typed.observe_chunk(b"x").line_update, Some(("x".to_string(), 1)));
    }
    let mut state = SharedState::new();
    let mut typed = InputModel::new();
    state.on_line_update("git".to_string(), 3);
    typed.observe_chunk(b"git");
    for event in [
        OscEvent::Osc133CommandInputStart,
        OscEvent::Osc133CommandDone(None),
        OscEvent::Osc7Cwd("/w".to_string()),
    ] {
        report_event(&mut state, &mut typed, event);
        assert_eq!(state.current_line(), ("git".to_string(), 3));
    }
    assert_eq!(typed.observe_chunk(b"!").line_update, Some(("git!".to_string(), 4)));
}

#[test]
fn the_tail_of_an_overlong_body_is_no_sequence() {
    for len in [MAX_OSC_PAYLOAD - 1, MAX_OSC_PAYLOAD, MAX_OSC_PAYLOAD + 1] {
        let mut input = b"\x1b]".to_vec();
        input.extend(std::iter::repeat(b'x').take(len));
        input.extend(b"\x1b133;A\x07");
        assert!(feed(&mut OscParser::new(), &input).is_empty());
        // With an introducer of its own it is one.
        input.extend(b"\x1b]133;A\x07");
        assert_eq!(feed(&mut OscParser::new(), &input), vec![OscEvent::Osc133PromptStart]);
    }
}

#[test]
fn a_body_may_fill_the_buffer() {
    let mut input = b"\x1b]7;".to_vec();
    input.extend(std::iter::repeat(b'/').take(MAX_OSC_PAYLOAD - 2));
    input.push(0x07);
    assert_eq!(feed(&mut OscParser::new(), &input), vec![OscEvent::Osc7Cwd("/".repeat(MAX_OSC_PAYLOAD - 2))]);
    let mut longer = b"\x1b]7;/".to_vec();
    longer.extend(&input[4..]);
    assert!(feed(&mut OscParser::new(), &longer).is_empty());
}

#[test]
fn a_terminator_resynchronizes_after_anything() {
    let mut overflow_in_escape = b"\x1b]".to_vec();
    overflow_in_escape.extend(std::iter::repeat(b'x').take(MAX_OSC_PAYLOAD));
    overflow_in_escape.extend(b"\x1bX");
    let garbage: [&[u8]; 5] = [b"", b"\x1b", b"\x1b]7;file:///never ended", b"\x1b]\x1b", &overflow_in_escape];
    for before in garbage {
        let mut p = OscParser::new();
        feed(&mut p, before);
        feed(&mut p, b"\x1b\\");
        assert_eq!(feed(&mut p, b"\x1b]133;A\x1b\\"), vec![OscEvent::Osc133PromptStart]);
    }
}
