use hintkit::debouncer::SendOutcome;
use hintkit::input::{ChunkOutcome, DetectorEvent, InputModel, PasteDetector, PASTE_END, PASTE_START};
use hintkit::output::OscEvent;

fn observe_all(detector: &mut PasteDetector, bytes: &[u8]) -> Vec<DetectorEvent> {
    bytes.iter().map(|&b| detector.observe(b)).collect()
}

#[test]
fn normal_bytes_stay_normal() {
    let mut d = PasteDetector::new();
    let events = observe_all(&mut d, b"hello world\n");
    assert!(events.iter().all(|e| *e == DetectorEvent::Normal));
    assert!(!d.in_paste());
}

#[test]
fn detects_paste_start_in_single_buffer() {
    let mut d = PasteDetector::new();
    let events = observe_all(&mut d, &PASTE_START);
    let last = events.last().copied().unwrap();
    assert_eq!(last, DetectorEvent::EnteredPaste);
    assert!(d.in_paste());
}

#[test]
fn detects_paste_start_split_across_buffers() {
    let mut d = PasteDetector::new();
    observe_all(&mut d, &PASTE_START[..3]);
    assert!(!d.in_paste());
    let events = observe_all(&mut d, &PASTE_START[3..]);
    assert_eq!(*events.last().unwrap(), DetectorEvent::EnteredPaste);
    assert!(d.in_paste());
}

#[test]
fn paste_then_end_returns_to_normal() {
    let mut d = PasteDetector::new();
    observe_all(&mut d, &PASTE_START);
    let mid = observe_all(&mut d, b"some pasted content\nwith newlines");
    assert!(mid.iter().all(|e| *e == DetectorEvent::Paste));
    let end = observe_all(&mut d, &PASTE_END);
    assert_eq!(*end.last().unwrap(), DetectorEvent::ExitedPaste);
    assert!(!d.in_paste());
}

#[test]
fn false_paste_start_resets_cleanly() {
    // `\e[20x` looks like the start of `\e[200~` but isn't.
    let mut d = PasteDetector::new();
    observe_all(&mut d, b"\x1b[20x");
    assert!(!d.in_paste());
    // Subsequent real paste start still works.
    observe_all(&mut d, &PASTE_START);
    assert!(d.in_paste());
}

#[test]
fn nested_paste_start_inside_paste_is_ignored() {
    let mut d = PasteDetector::new();
    observe_all(&mut d, &PASTE_START);
    // A literal `\e[200~` inside the paste should NOT exit paste mode
    // (we're scanning for `\e[201~`, not for any escape sequence).
    observe_all(&mut d, &PASTE_START);
    assert!(d.in_paste());
    observe_all(&mut d, &PASTE_END);
    assert!(!d.in_paste());
}

#[test]
fn esc_byte_restarts_match_progress() {
    // `\e[2` then another `\e[200~` should still match cleanly.
    let mut d = PasteDetector::new();
    observe_all(&mut d, b"\x1b[2");
    observe_all(&mut d, &PASTE_START);
    assert!(d.in_paste());
}

fn typed(chunks: &[&[u8]]) -> (InputModel, Vec<ChunkOutcome>) {
    let mut model = InputModel::new();
    let outcomes = chunks.iter().map(|c| model.observe_chunk(c)).collect();
    (model, outcomes)
}

#[test]
fn a_typed_chunk_updates_the_line_and_ticks_once() {
    let (_, outcomes) = typed(&[b"git", b"\t", b" st"]);
    assert_eq!(outcomes[0].line_update, Some(("git".to_string(), 3)));
    assert!(outcomes[0].tick);
    // A tab is no change of the line, but still input.
    assert_eq!(outcomes[1].line_update, None);
    assert!(outcomes[1].tick);
    assert_eq!(outcomes[2].line_update, Some(("git st".to_string(), 6)));
    let (_, nothing) = typed(&[b""]);
    assert!(nothing[0].line_update.is_none() && !nothing[0].tick);
}

#[test]
fn a_paste_is_inert_until_it_ends() {
    let mut start = b"ab".to_vec();
    start.extend(PASTE_START);
    let (_, outcomes) = typed(&[&start, b"rm -rf\n\x1b[D", &PASTE_END, b"c"]);
    // The line typed before the paste is passed on, but no tick comes.
    assert!(!outcomes[0].tick);
    assert!(outcomes[1].line_update.is_none());
    assert!(!outcomes[1].tick);
    // The end of the paste resets the line and ticks.
    assert_eq!(outcomes[2].line_update, Some((String::new(), 0)));
    assert!(outcomes[2].tick);
    assert_eq!(outcomes[3].line_update, Some(("c".to_string(), 1)));
}

#[test]
fn chunks_may_be_split_anywhere() {
    let mut input = b"one".to_vec();
    input.extend(PASTE_START);
    input.extend(b"two");
    input.extend(PASTE_END);
    input.extend(b"three");
    for at in 0..=input.len() {
        let (mut whole, _) = typed(&[&input]);
        let (mut split, _) = typed(&[&input[..at], &input[at..]]);
        assert_eq!(
            whole.observe_chunk(b"!").line_update,
            split.observe_chunk(b"!").line_update
        );
    }
}

#[test]
fn only_a_delimiter_changes_the_mode() {
    for len in 0..PASTE_START.len() {
        let mut d = PasteDetector::new();
        observe_all(&mut d, &PASTE_START[..len]);
        assert!(!d.in_paste());
        // Whatever came before, a whole delimiter is always recognized.
        assert_eq!(*observe_all(&mut d, &PASTE_START).last().unwrap(), DetectorEvent::EnteredPaste);
        observe_all(&mut d, &PASTE_END[..len]);
        assert!(d.in_paste());
        assert_eq!(*observe_all(&mut d, &PASTE_END).last().unwrap(), DetectorEvent::ExitedPaste);
    }
    let mut d = PasteDetector::new();
    observe_all(&mut d, &PASTE_END);
    assert!(!d.in_paste());
}

#[test]
fn without_a_receiver_only_the_ticks_end() {
    let mut model = InputModel::new();
    assert!(model.observe_chunk(b"a").tick);
    model.on_tick_sent(SendOutcome::Sent);
    assert!(model.observe_chunk(b"b").tick);
    model.on_tick_sent(SendOutcome::Full);
    assert!(model.observe_chunk(b"c").tick);
    model.on_tick_sent(SendOutcome::Disconnected);
    let after = model.observe_chunk(b"d");
    assert!(!after.tick);
    assert_eq!(after.line_update, Some(("abcd".to_string(), 4)));
    model.on_tick_sent(SendOutcome::Sent);
    assert!(!model.observe_chunk(b"e").tick);
}

#[test]
fn after_a_history_arrow_the_line_is_unknown_until_a_prompt() {
    for arrow in [b'A', b'B'] {
        for resync in [OscEvent::Osc133PromptStart, OscEvent::Osc133CommandInputStart] {
            let mut model = InputModel::new();
            model.observe_chunk(b"git");
            let recalled = model.observe_chunk(&[0x1b, b'[', arrow]);
            assert_eq!(recalled.line_update, Some((String::new(), 0)));
            assert!(recalled.tick);
            // Nothing that is typed, pasted or submitted brings the line back.
            assert_eq!(model.observe_chunk(b" st\r\x15ls\x1b[D").line_update, None);
            model.observe_chunk(&PASTE_START);
            model.observe_chunk(&PASTE_END);
            assert_eq!(model.observe_chunk(b"x").line_update, None);
            // Nor does another report of the shell.
            assert!(model.on_shell_event(&OscEvent::Osc133CommandStart));
            assert!(!model.on_shell_event(&OscEvent::Osc133CommandDone(Some(0))));
            assert_eq!(model.observe_chunk(b"x").line_update, None);
            let reset = resync == OscEvent::Osc133PromptStart;
            assert_eq!(model.on_shell_event(&resync), reset);
            assert_eq!(model.observe_chunk(b"y").line_update, Some(("y".to_string(), 1)));
        }
    }
}

#[test]
fn other_arrows_keep_the_line_in_step() {
    let mut model = InputModel::new();
    model.observe_chunk(b"ac\x1b[D");
    assert_eq!(model.observe_chunk(b"b").line_update, Some(("abc".to_string(), 2)));
    // The letters alone are just typed.
    assert_eq!(model.observe_chunk(b"A").line_update, Some(("abAc".to_string(), 3)));
}

#[test]
fn a_paste_is_inert_from_the_middle_of_a_delimiter_on() {
    let mut model = InputModel::new();
    model.observe_chunk(b"ab");
    model.observe_chunk(&PASTE_START);
    for len in 0..PASTE_END.len() {
        model.observe_chunk(&PASTE_END[..len]);
        let inside = model.observe_chunk(b"pasted\n");
        assert!(inside.line_update.is_none() && !inside.tick);
    }
}

#[test]
fn after_a_reverse_search_the_line_is_unknown_until_a_prompt() {
    for resync in [OscEvent::Osc133PromptStart, OscEvent::Osc133CommandInputStart] {
        let mut model = InputModel::new();
        model.observe_chunk(b"git");
        let searched = model.observe_chunk(b"\x12g");
        assert_eq!(searched.line_update, Some((String::new(), 0)));
        assert!(searched.tick);
        assert_eq!(model.observe_chunk(b"it\r").line_update, None);
        model.on_shell_event(&resync);
        assert_eq!(model.observe_chunk(b"y").line_update, Some(("y".to_string(), 1)));
    }
    // On an empty line there is nothing to report.
    let mut empty = InputModel::new();
    assert_eq!(empty.observe_chunk(b"\x12g").line_update, None);
}

#[test]
fn a_search_byte_counts_only_where_it_is_typed() {
    // Behind an ESC, and inside a sequence, it starts no search.
    for prefix in [&b"\x1b"[..], b"\x1b[1"] {
        let mut model = InputModel::new();
        model.observe_chunk(b"ab");
        model.observe_chunk(prefix);
        model.observe_chunk(b"\x12D");
        assert!(model.observe_chunk(b"c").line_update.is_some());
    }
    // Pasted, it is content.
    let mut model = InputModel::new();
    model.observe_chunk(&PASTE_START);
    model.observe_chunk(b"\x12");
    model.observe_chunk(&PASTE_END);
    assert_eq!(model.observe_chunk(b"c").line_update, Some(("c".to_string(), 1)));
}
