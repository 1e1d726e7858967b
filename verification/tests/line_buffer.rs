use hintkit::line_buffer::LineBuffer;

fn feed(buf: &mut LineBuffer, bytes: &[u8]) -> usize {
    let mut changes = 0;
    for &b in bytes {
        if buf.observe(b) {
            changes += 1;
        }
    }
    changes
}

#[test]
fn typing_appends_to_buffer() {
    let mut lb = LineBuffer::new();
    feed(&mut lb, b"git checkout");
    assert_eq!(lb.as_str(), "git checkout");
    assert_eq!(lb.cursor(), 12);
}

#[test]
fn backspace_removes_one_byte() {
    let mut lb = LineBuffer::new();
    feed(&mut lb, b"abc");
    feed(&mut lb, &[0x7f]);
    assert_eq!(lb.as_str(), "ab");
    assert_eq!(lb.cursor(), 2);
}

#[test]
fn ctrl_a_jumps_to_start() {
    let mut lb = LineBuffer::new();
    feed(&mut lb, b"abc");
    feed(&mut lb, &[0x01]);
    assert_eq!(lb.cursor(), 0);
    assert_eq!(lb.as_str(), "abc");
}

#[test]
fn ctrl_u_kills_from_cursor_to_start() {
    let mut lb = LineBuffer::new();
    feed(&mut lb, b"hello world");
    // Cursor at 11. ^A → 0. ^U should no-op since nothing's left
    // of the cursor.
    feed(&mut lb, &[0x05]); // move to end (no-op, already there)
    feed(&mut lb, &[0x15]); // kill back to start
    assert_eq!(lb.as_str(), "");
    assert_eq!(lb.cursor(), 0);
}

#[test]
fn ctrl_w_kills_word_backward() {
    let mut lb = LineBuffer::new();
    feed(&mut lb, b"git checkout main");
    feed(&mut lb, &[0x17]);
    assert_eq!(lb.as_str(), "git checkout ");
}

#[test]
fn enter_resets_buffer() {
    let mut lb = LineBuffer::new();
    feed(&mut lb, b"echo hi");
    feed(&mut lb, &[0x0d]);
    assert_eq!(lb.as_str(), "");
    assert_eq!(lb.cursor(), 0);
}

#[test]
fn left_arrow_moves_cursor() {
    let mut lb = LineBuffer::new();
    feed(&mut lb, b"abc");
    // ESC [ D
    feed(&mut lb, &[0x1b, b'[', b'D']);
    assert_eq!(lb.cursor(), 2);
    assert_eq!(lb.as_str(), "abc");
}

#[test]
fn right_arrow_moves_cursor() {
    let mut lb = LineBuffer::new();
    feed(&mut lb, b"abc");
    feed(&mut lb, &[0x01]); // ^A
    feed(&mut lb, &[0x1b, b'[', b'C']);
    assert_eq!(lb.cursor(), 1);
}

#[test]
fn up_arrow_resets_buffer_for_desync() {
    let mut lb = LineBuffer::new();
    feed(&mut lb, b"some-cmd");
    feed(&mut lb, &[0x1b, b'[', b'A']);
    assert_eq!(lb.as_str(), "");
}

#[test]
fn csi_split_across_observe_calls() {
    let mut lb = LineBuffer::new();
    feed(&mut lb, b"abc");
    // Bytes arrive one at a time across multiple stdin reads.
    lb.observe(0x1b);
    lb.observe(b'[');
    let changed = lb.observe(b'D');
    assert!(changed);
    assert_eq!(lb.cursor(), 2);
}

#[test]
fn insert_in_middle() {
    let mut lb = LineBuffer::new();
    feed(&mut lb, b"ac");
    feed(&mut lb, &[0x1b, b'[', b'D']); // cursor left → 1
    feed(&mut lb, b"b");
    assert_eq!(lb.as_str(), "abc");
    assert_eq!(lb.cursor(), 2);
}

#[test]
fn snapshot_returns_owned_pair() {
    let mut lb = LineBuffer::new();
    feed(&mut lb, b"hi");
    let (line, cursor) = lb.snapshot();
    assert_eq!(line, "hi");
    assert_eq!(cursor, 2);
}

fn line_of(bytes: &[u8]) -> (String, usize) {
    let mut lb = LineBuffer::new();
    feed(&mut lb, bytes);
    lb.snapshot()
}

#[test]
fn the_cursor_never_leaves_the_line() {
    let mut lb = LineBuffer::default();
    for b in 0..=255u8 {
        for key in [b, 0x1b, b'[', b'C', 0x7f, b'x', 0x15] {
            lb.observe(key);
            let (line, cursor) = lb.snapshot();
            // A line that is not UTF-8 is shown as empty.
            assert!(line.is_empty() || cursor <= line.len());
        }
    }
}

#[test]
fn reads_may_be_split_anywhere() {
    let input = b"git \x1b[Dcommit\x17\x1b[1;5Dxy\x7f\x01z\x05!";
    for at in 0..input.len() {
        let mut lb = LineBuffer::new();
        feed(&mut lb, &input[..at]);
        feed(&mut lb, &input[at..]);
        assert_eq!(lb.snapshot(), line_of(input));
    }
}

#[test]
fn backspace_undoes_typing() {
    for erase in [0x7f, 0x08] {
        let mut lb = LineBuffer::new();
        feed(&mut lb, b"ac\x1b[D");
        let before = lb.snapshot();
        assert!(lb.observe(b'b'));
        assert!(lb.observe(erase));
        assert_eq!(lb.snapshot(), before);
    }
    assert!(!LineBuffer::new().observe(0x7f));
}

#[test]
fn arrows_stop_at_the_ends_and_undo_each_other() {
    let mut lb = LineBuffer::new();
    assert_eq!(feed(&mut lb, b"\x1b[D\x1b[C"), 0);
    feed(&mut lb, b"ab");
    assert_eq!(feed(&mut lb, b"\x1b[C"), 0);
    assert_eq!(feed(&mut lb, b"\x1b[D\x1b[C"), 2);
    assert_eq!(lb.cursor(), 2);
    assert_eq!(feed(&mut lb, b"\x1b[D\x1b[D\x1b[D"), 2);
    assert_eq!(lb.cursor(), 0);
}

#[test]
fn every_line_end_resets() {
    for end in [0x0d, 0x0a, 0x03, 0x04] {
        assert_eq!(line_of(&[b'a', b'b', end]), (String::new(), 0));
        assert!(!LineBuffer::new().observe(end));
    }
    assert_eq!(line_of(b"abc\x1b[B"), (String::new(), 0));
}

#[test]
fn kills_take_what_they_name() {
    assert_eq!(line_of(b"ab  cd  \x17"), ("ab  ".to_string(), 4));
    assert_eq!(line_of(b"ab\x17\x17"), (String::new(), 0));
    assert_eq!(line_of(b"abcd\x1b[D\x1b[D\x0b"), ("ab".to_string(), 2));
    assert_eq!(line_of(b"abcd\x1b[D\x1b[D\x15"), ("cd".to_string(), 0));
    let mut lb = LineBuffer::new();
    feed(&mut lb, b"ab");
    assert!(!lb.observe(0x0b));
    lb.observe(0x01);
    assert!(!lb.observe(0x15));
    assert!(!lb.observe(0x17));
    assert_eq!(lb.as_str(), "ab");
}

#[test]
fn keys_without_a_meaning_change_nothing() {
    assert_eq!(line_of(b"a\tb\x02\x1f"), ("ab".to_string(), 2));
    // Alt+b, and a sequence with parameters and an unknown final byte.
    assert_eq!(line_of(b"ab\x1bbc\x1b[1;2Z"), ("abc".to_string(), 3));
    assert_eq!(line_of(b"a\x1b\x1b[D"), ("a".to_string(), 0));
}

#[test]
fn half_a_character_is_shown_as_nothing() {
    let mut lb = LineBuffer::new();
    feed(&mut lb, "aé".as_bytes());
    assert_eq!(lb.snapshot(), ("aé".to_string(), 3));
    lb.observe(0x7f);
    assert_eq!(lb.snapshot(), (String::new(), 2));
    lb.observe(0xa9);
    assert_eq!(lb.as_str(), "aé");
    lb.reset();
    assert_eq!(lb.snapshot(), (String::new(), 0));
}
