//! Best-effort tracking of the wrapped shell's current command line.
//!
//! The shell's own line editor holds the truth. This module models a parallel
//! buffer fed by the same bytes, interpreting the common emacs-mode bindings:
//!
//! - Printable bytes (0x20-0xff, DEL excepted) insert at the cursor.
//! - 0x7f (DEL) and 0x08 (BS) erase one byte backwards.
//! - 0x01 (^A) moves to the line start, 0x05 (^E) to the line end.
//! - 0x15 (^U) kills from the cursor back to the start, 0x0b (^K) to the end.
//! - 0x17 (^W) kills a word backwards.
//! - `ESC [ D` / `ESC [ C` move the cursor left / right.
//! - `ESC [ A` / `ESC [ B` (history navigation) reset the model, which cannot
//!   follow the shell's history.
//! - 0x0d / 0x0a / 0x03 / 0x04 (Enter, ^C, ^D) reset it too: the line is
//!   submitted or cancelled.
//!
//! After history navigation or reverse-search (0x12, ^R) the model is out of step
//! with the shell. Nothing is suggested then until the integration script reports
//! the next prompt (OSC 133 A / B): see [`crate::input::InputModel`].

use vstd::prelude::*;

use crate::text;
use crate::tokens;

verus! {

broadcast use vstd::seq_lib::group_seq_properties;

/// How many parameter bytes of a CSI sequence are kept.
pub const MAX_CSI_PARAMS: usize = 32;

#[derive(Debug, Clone, PartialEq, Eq)]
enum EscapeState {
    Idle,
    /// Saw an ESC; the next byte determines whether this is a CSI
    /// (`[`), an Alt+key shortcut, or something else.
    SawEsc,
    /// Inside `ESC [ ... final`: collecting parameter bytes until the
    /// CSI final byte (0x40-0x7e) arrives.
    Csi(Vec<u8>),
}

/// Mutable model of the in-progress command line.
#[derive(Debug)]
pub struct LineBuffer {
    buf: Vec<u8>,
    /// Cursor byte offset. Always in `0..=buf.len()`.
    cursor: usize,
    escape: EscapeState,
}

/// How far the model is into an escape sequence.
pub enum EscapeView {
    Idle,
    SawEsc,
    Csi(Seq<u8>),
}

/// What a [`LineBuffer`] stands for: the bytes of the line, the cursor among
/// them, and the progress through an escape sequence.
pub struct LineView {
    pub buf: Seq<u8>,
    pub cursor: int,
    pub escape: EscapeView,
}

impl LineView {
    /// The cursor lies in the line or at its end.
    pub open spec fn wf(self) -> bool {
        0 <= self.cursor <= self.buf.len()
    }

    /// The same line and cursor, with the escape progress `escape`.
    pub open spec fn escaped(self, escape: EscapeView) -> LineView {
        LineView { escape, ..self }
    }

    /// The same line, with the cursor at `cursor`.
    pub open spec fn moved(self, cursor: int) -> LineView {
        LineView { cursor, ..self }
    }

    /// The line without its bytes from `from` up to the cursor, and the cursor
    /// where they were.
    pub open spec fn killed_back_to(self, from: int) -> LineView {
        LineView {
            buf: self.buf.subrange(0, from) + self.buf.subrange(self.cursor, self.buf.len() as int),
            cursor: from,
            ..self
        }
    }

    /// No line at all, in the same place of an escape sequence.
    pub open spec fn forgotten(self) -> LineView {
        LineView { buf: seq![], cursor: 0, ..self }
    }

    /// The line with `byte` inserted before the cursor.
    pub open spec fn typed(self, byte: u8) -> LineView {
        LineView { buf: self.buf.insert(self.cursor, byte), cursor: self.cursor + 1, ..self }
    }
}

/// The empty line.
pub open spec fn empty_line() -> LineView {
    LineView { buf: seq![], cursor: 0, escape: EscapeView::Idle }
}

/// The offset behind the last byte before `end` that is no whitespace.
pub open spec fn skip_spaces_back(buf: Seq<u8>, end: int) -> int
    decreases end,
{
    if 0 < end <= buf.len() && tokens::is_space(buf[end - 1]) {
        skip_spaces_back(buf, end - 1)
    } else {
        end
    }
}

/// The offset behind the last whitespace byte before `end`.
pub open spec fn skip_word_back(buf: Seq<u8>, end: int) -> int
    decreases end,
{
    if 0 < end <= buf.len() && !tokens::is_space(buf[end - 1]) {
        skip_word_back(buf, end - 1)
    } else {
        end
    }
}

/// Where the word before the cursor begins: behind it there may be whitespace,
/// which goes with it.
pub open spec fn word_start(buf: Seq<u8>, cursor: int) -> int {
    skip_word_back(buf, skip_spaces_back(buf, cursor))
}

/// Before a cursor that is not at the start there is something to kill.
pub proof fn lemma_word_start(buf: Seq<u8>, cursor: int)
    requires
        0 <= cursor <= buf.len(),
    ensures
        0 <= word_start(buf, cursor) <= cursor,
        cursor > 0 ==> word_start(buf, cursor) < cursor,
{
    lemma_skip_spaces_back(buf, cursor);
    lemma_skip_word_back(buf, skip_spaces_back(buf, cursor));
}

proof fn lemma_skip_spaces_back(buf: Seq<u8>, end: int)
    requires
        0 <= end <= buf.len(),
    ensures
        0 <= skip_spaces_back(buf, end) <= end,
        skip_spaces_back(buf, end) > 0 ==> !tokens::is_space(buf[skip_spaces_back(buf, end) - 1]),
        forall|k: int| skip_spaces_back(buf, end) <= k < end ==> tokens::is_space(#[trigger] buf[k]),
    decreases end,
{
    if 0 < end && tokens::is_space(buf[end - 1]) {
        lemma_skip_spaces_back(buf, end - 1);
    }
}

proof fn lemma_skip_word_back(buf: Seq<u8>, end: int)
    requires
        0 <= end <= buf.len(),
    ensures
        0 <= skip_word_back(buf, end) <= end,
        end > 0 && !tokens::is_space(buf[end - 1]) ==> skip_word_back(buf, end) < end,
        skip_word_back(buf, end) > 0 ==> tokens::is_space(buf[skip_word_back(buf, end) - 1]),
        forall|k: int| skip_word_back(buf, end) <= k < end ==> !tokens::is_space(#[trigger] buf[k]),
    decreases end,
{
    if 0 < end && !tokens::is_space(buf[end - 1]) {
        lemma_skip_word_back(buf, end - 1);
    }
}

/// Whether the byte stands for itself when typed: all but the control bytes.
pub open spec fn is_printable(byte: u8) -> bool {
    byte >= 0x20 && byte != 0x7f
}

/// Whether the byte ends the line: Enter, ^C or ^D.
pub open spec fn ends_line(byte: u8) -> bool {
    byte == 0x0d || byte == 0x0a || byte == 0x03 || byte == 0x04
}

/// Whether the byte ends a CSI sequence.
pub open spec fn is_csi_final(byte: u8) -> bool {
    0x40 <= byte <= 0x7e
}

/// Whether the byte completes a history arrow.
pub open spec fn recalls_history(v: LineView, byte: u8) -> bool {
    v.escape is Csi && (byte == 0x41 || byte == 0x42)
}

/// Whether the byte starts a reverse-search.
pub open spec fn starts_search(v: LineView, byte: u8) -> bool {
    v.escape is Idle && byte == 0x12
}

/// Whether the byte makes the shell replace its line by one that the model
/// cannot know.
pub open spec fn loses_track(v: LineView, byte: u8) -> bool {
    recalls_history(v, byte) || starts_search(v, byte)
}

/// The effect of a byte outside any escape sequence.
pub open spec fn after_plain(v: LineView, byte: u8) -> LineView {
    if byte == 0x1b {
        v.escaped(EscapeView::SawEsc)
    } else if ends_line(byte) {
        empty_line()
    } else if byte == 0x7f || byte == 0x08 {
        if v.cursor > 0 {
            v.killed_back_to(v.cursor - 1)
        } else {
            v
        }
    } else if byte == 0x01 {
        v.moved(0)
    } else if byte == 0x05 {
        v.moved(v.buf.len() as int)
    } else if byte == 0x15 {
        v.killed_back_to(0)
    } else if byte == 0x0b {
        LineView { buf: v.buf.subrange(0, v.cursor), ..v }
    } else if byte == 0x17 {
        v.killed_back_to(word_start(v.buf, v.cursor))
    } else if is_printable(byte) {
        v.typed(byte)
    } else {
        v
    }
}

/// The effect of the final byte of a CSI sequence.
pub open spec fn after_csi(v: LineView, byte: u8) -> LineView {
    if byte == 0x44 && v.cursor > 0 {
        v.moved(v.cursor - 1)
    } else if byte == 0x43 && v.cursor < v.buf.len() {
        v.moved(v.cursor + 1)
    } else if byte == 0x41 || byte == 0x42 {
        empty_line()
    } else {
        v
    }
}

/// The line after one more input byte.
pub open spec fn after_byte(v: LineView, byte: u8) -> LineView {
    match v.escape {
        EscapeView::Idle => after_plain(v, byte),
        EscapeView::SawEsc => if byte == 0x5b {
            v.escaped(EscapeView::Csi(seq![]))
        } else if byte == 0x1b {
            v
        } else {
            v.escaped(EscapeView::Idle)
        },
        EscapeView::Csi(params) => if is_csi_final(byte) {
            after_csi(v.escaped(EscapeView::Idle), byte)
        } else if params.len() < MAX_CSI_PARAMS {
            v.escaped(EscapeView::Csi(params.push(byte)))
        } else {
            v
        },
    }
}

/// The line after the bytes `input`, one by one.
pub open spec fn after_bytes(v: LineView, input: Seq<u8>) -> LineView
    decreases input.len(),
{
    if input.len() == 0 {
        v
    } else {
        after_byte(after_bytes(v, input.drop_last()), input.last())
    }
}

/// The text of the line, or no text while its bytes are not well-formed UTF-8.
pub open spec fn shown(v: LineView) -> Seq<char> {
    match text::decoded(v.buf) {
        Some(t) => t,
        None => seq![],
    }
}

impl LineBuffer {
    /// The state of the escape tracking.
    closed spec fn escape_view(e: EscapeState) -> EscapeView {
        match e {
            EscapeState::Idle => EscapeView::Idle,
            EscapeState::SawEsc => EscapeView::SawEsc,
            EscapeState::Csi(params) => EscapeView::Csi(params@),
        }
    }

    /// The cursor is within the line.
    pub open spec fn wf(&self) -> bool {
        self@.wf()
    }
}

impl View for LineBuffer {
    type V = LineView;

    closed spec fn view(&self) -> LineView {
        LineView { buf: self.buf@, cursor: self.cursor as int, escape: Self::escape_view(self.escape) }
    }
}

impl Default for LineBuffer {
    fn default() -> (r: Self)
        ensures
            r.wf(),
            r@ == empty_line(),
    {
        Self::new()
    }
}

impl LineBuffer {
    pub fn new() -> (r: Self)
        ensures
            r.wf(),
            r@ == empty_line(),
    {
        Self { buf: Vec::new(), cursor: 0, escape: EscapeState::Idle }
    }

    /// Clear the buffer. Called on Enter, ^C, ^D, or any integration-driven sync
    /// point (OSC 133 A / C).
    pub fn reset(&mut self)
        ensures
            final(self).wf(),
            final(self)@ == empty_line(),
    {
        self.buf.clear();
        self.cursor = 0;
        self.escape = EscapeState::Idle;
    }

    /// Clear the line, but stay where the input is in an escape sequence.
    pub fn forget(&mut self)
        ensures
            final(self).wf(),
            final(self)@ == old(self)@.forgotten(),
    {
        self.buf.clear();
        self.cursor = 0;
    }

    /// Whether `byte` would make the shell replace its line by one that the
    /// model cannot know: a history arrow, or a reverse-search.
    pub fn loses_track(&self, byte: u8) -> (r: bool)
        ensures
            r == loses_track(self@, byte),
    {
        match &self.escape {
            EscapeState::Csi(_) => byte == 0x41 || byte == 0x42,
            EscapeState::Idle => byte == 0x12,
            EscapeState::SawEsc => false,
        }
    }

    /// Whether the line holds no byte.
    pub fn is_empty(&self) -> (r: bool)
        ensures
            r == (self@.buf.len() == 0),
    {
        self.buf.len() == 0
    }

    /// Current line as text. Empty while the buffer holds invalid UTF-8 in the
    /// middle of a multi-byte edit.
    pub fn as_str(&self) -> (r: &str)
        ensures
            r@ == shown(self@),
    {
        match text::decode(self.buf.as_slice()) {
            Some(s) => s,
            None => {
                proof {
                    reveal_strlit("");
                }
                ""
            },
        }
    }

    /// The current cursor byte offset.
    pub fn cursor(&self) -> (r: usize)
        ensures
            r == self@.cursor,
    {
        self.cursor
    }

    /// Snapshot the current line + cursor without holding internal
    /// references.
    pub fn snapshot(&self) -> (r: (String, usize))
        ensures
            r.0@ == shown(self@),
            r.1 == self@.cursor,
    {
        (self.as_str().to_owned(), self.cursor)
    }

    /// Feed one input byte. Returns `true` if the line content
    /// (text or cursor) changed, so that suggestions should be recomputed.
    pub fn observe(&mut self, byte: u8) -> (changed: bool)
        requires
            old(self).wf(),
        ensures
            final(self).wf(),
            final(self)@ == after_byte(old(self)@, byte),
            changed == (final(self)@.buf != old(self)@.buf || final(self)@.cursor != old(self)@.cursor),
    {
        let mut escape = EscapeState::Idle;
        std::mem::swap(&mut escape, &mut self.escape);
        match escape {
            EscapeState::Idle => self.observe_idle(byte),
            EscapeState::SawEsc => self.observe_after_esc(byte),
            EscapeState::Csi(params) => self.observe_in_csi(params, byte),
        }
    }

    fn observe_idle(&mut self, byte: u8) -> (changed: bool)
        requires
            old(self).wf(),
            old(self)@.escape is Idle,
        ensures
            final(self).wf(),
            final(self)@ == after_plain(old(self)@, byte),
            changed == (final(self)@.buf != old(self)@.buf || final(self)@.cursor != old(self)@.cursor),
    {
        match byte {
            0x1b => {
                self.escape = EscapeState::SawEsc;
                false
            },
            0x0d | 0x0a | 0x03 | 0x04 => {
                let changed = self.buf.len() > 0 || self.cursor != 0;
                self.reset();
                changed
            },
            0x7f | 0x08 => self.backspace(),
            0x01 => {
                let changed = self.cursor != 0;
                self.cursor = 0;
                changed
            },
            0x05 => {
                let changed = self.cursor != self.buf.len();
                self.cursor = self.buf.len();
                changed
            },
            0x15 => self.kill_to_start(),
            0x0b => self.kill_to_end(),
            0x17 => self.kill_word_backward(),
            0x20..=0x7e | 0x80..=0xff => {
                self.buf.insert(self.cursor, byte);
                assert(self.buf.len() == old(self)@.buf.len() + 1);
                self.cursor += 1;
                true
            },
            _ => false,
        }
    }

    fn observe_after_esc(&mut self, byte: u8) -> (changed: bool)
        requires
            old(self).wf(),
            old(self)@.escape is Idle,
        ensures
            final(self).wf(),
            final(self)@ == after_byte(old(self)@.escaped(EscapeView::SawEsc), byte),
            !changed,
    {
        if byte == 0x5b {
            self.escape = EscapeState::Csi(Vec::new());
        } else if byte == 0x1b {
            // Another ESC: stay to retry.
            self.escape = EscapeState::SawEsc;
        }
        // Otherwise an Alt+key or another sequence that is not modelled.
        false
    }

    fn observe_in_csi(&mut self, params: Vec<u8>, byte: u8) -> (changed: bool)
        requires
            old(self).wf(),
            old(self)@.escape is Idle,
        ensures
            final(self).wf(),
            final(self)@ == after_byte(old(self)@.escaped(EscapeView::Csi(params@)), byte),
            changed == (final(self)@.buf != old(self)@.buf || final(self)@.cursor != old(self)@.cursor),
    {
        if 0x40 <= byte && byte <= 0x7e {
            self.handle_csi_final(byte)
        } else {
            let mut params = params;
            if params.len() < MAX_CSI_PARAMS {
                params.push(byte);
            }
            self.escape = EscapeState::Csi(params);
            false
        }
    }

    fn handle_csi_final(&mut self, final_byte: u8) -> (changed: bool)
        requires
            old(self).wf(),
            old(self)@.escape is Idle,
        ensures
            final(self).wf(),
            final(self)@ == after_csi(old(self)@, final_byte),
            changed == (final(self)@.buf != old(self)@.buf || final(self)@.cursor != old(self)@.cursor),
    {
        match final_byte {
            0x44 => {
                if self.cursor > 0 {
                    self.cursor -= 1;
                    true
                } else {
                    false
                }
            },
            0x43 => {
                if self.cursor < self.buf.len() {
                    self.cursor += 1;
                    true
                } else {
                    false
                }
            },
            0x41 | 0x42 => {
                // The shell replaces its line with a remembered one, which
                // cannot be mirrored here.
                let changed = self.buf.len() > 0;
                self.reset();
                changed
            },
            _ => false,
        }
    }

    fn backspace(&mut self) -> (changed: bool)
        requires
            old(self).wf(),
        ensures
            final(self).wf(),
            final(self)@ == (if old(self)@.cursor > 0 {
                old(self)@.killed_back_to(old(self)@.cursor - 1)
            } else {
                old(self)@
            }),
            changed == (final(self)@.buf != old(self)@.buf || final(self)@.cursor != old(self)@.cursor),
    {
        if self.cursor == 0 {
            return false;
        }
        self.cursor -= 1;
        let _ = self.buf.remove(self.cursor);
        assert(self@.buf =~= old(self)@.killed_back_to(old(self)@.cursor - 1).buf);
        true
    }

    /// Remove the bytes from `from` up to the cursor.
    fn kill_back_to(&mut self, from: usize)
        requires
            old(self).wf(),
            from <= old(self)@.cursor,
        ensures
            final(self).wf(),
            final(self)@ == old(self)@.killed_back_to(from as int),
    {
        let mut tail = self.buf.split_off(self.cursor);
        self.buf.truncate(from);
        self.buf.append(&mut tail);
        self.cursor = from;
        assert(self@.buf =~= old(self)@.killed_back_to(from as int).buf);
    }

    fn kill_to_start(&mut self) -> (changed: bool)
        requires
            old(self).wf(),
        ensures
            final(self).wf(),
            final(self)@ == old(self)@.killed_back_to(0),
            changed == (final(self)@.buf != old(self)@.buf || final(self)@.cursor != old(self)@.cursor),
    {
        if self.cursor == 0 {
            assert(self@.buf =~= self@.killed_back_to(0).buf);
            return false;
        }
        self.kill_back_to(0);
        true
    }

    fn kill_to_end(&mut self) -> (changed: bool)
        requires
            old(self).wf(),
        ensures
            final(self).wf(),
            final(self)@ == (LineView { buf: old(self)@.buf.subrange(0, old(self)@.cursor), ..old(self)@ }),
            changed == (final(self)@.buf != old(self)@.buf || final(self)@.cursor != old(self)@.cursor),
    {
        if self.cursor >= self.buf.len() {
            assert(self@.buf =~= self@.buf.subrange(0, self@.cursor));
            return false;
        }
        self.buf.truncate(self.cursor);
        true
    }

    fn kill_word_backward(&mut self) -> (changed: bool)
        requires
            old(self).wf(),
        ensures
            final(self).wf(),
            final(self)@ == old(self)@.killed_back_to(word_start(old(self)@.buf, old(self)@.cursor)),
            changed == (final(self)@.buf != old(self)@.buf || final(self)@.cursor != old(self)@.cursor),
    {
        if self.cursor == 0 {
            assert(self@.buf =~= self@.killed_back_to(0).buf);
            return false;
        }
        let mut end: usize = self.cursor;
        while end > 0 && tokens::is_space_byte(self.buf[end - 1])
            invariant
                end <= self.cursor <= self.buf@.len(),
                skip_spaces_back(self.buf@, end as int) == skip_spaces_back(self.buf@, self.cursor as int),
            decreases end,
        {
            end -= 1;
        }
        let ghost mid = end;
        while end > 0 && !tokens::is_space_byte(self.buf[end - 1])
            invariant
                end <= mid <= self.cursor <= self.buf@.len(),
                skip_word_back(self.buf@, end as int) == skip_word_back(self.buf@, mid as int),
            decreases end,
        {
            end -= 1;
        }
        proof {
            lemma_word_start(self.buf@, self.cursor as int);
        }
        self.kill_back_to(end);
        true
    }
}

/// A line without bytes shows no text.
pub proof fn lemma_empty_line_shows_nothing(v: LineView)
    requires
        v.buf.len() == 0,
    ensures
        shown(v) == Seq::<char>::empty(),
{
    assert(v.buf =~= seq![]);
}

/// Whatever bytes arrive, the cursor stays within the line.
pub proof fn law_cursor_stays_in_line(v: LineView, input: Seq<u8>)
    requires
        v.wf(),
    ensures
        after_bytes(v, input).wf(),
    decreases input.len(),
{
    if input.len() > 0 {
        law_cursor_stays_in_line(v, input.drop_last());
        let w = after_bytes(v, input.drop_last());
        lemma_word_start(w.buf, w.cursor);
    }
}

/// How the input is split into reads makes no difference.
pub proof fn law_reads_may_be_split(v: LineView, a: Seq<u8>, b: Seq<u8>)
    ensures
        after_bytes(v, a + b) == after_bytes(after_bytes(v, a), b),
    decreases b.len(),
{
    if b.len() == 0 {
        assert(a + b =~= a);
    } else {
        assert((a + b).drop_last() =~= a + b.drop_last());
        law_reads_may_be_split(v, a, b.drop_last());
    }
}

/// Typed text lands at the cursor, in order, and the cursor ends up behind it.
pub proof fn law_typing_inserts_at_cursor(v: LineView, input: Seq<u8>)
    requires
        v.wf(),
        v.escape is Idle,
        forall|i: int| 0 <= i < input.len() ==> 0x20 <= #[trigger] input[i] && input[i] != 0x7f,
    ensures
        after_bytes(v, input) == (LineView {
            buf: v.buf.subrange(0, v.cursor) + input + v.buf.subrange(v.cursor, v.buf.len() as int),
            cursor: v.cursor + input.len(),
            escape: EscapeView::Idle,
        }),
    decreases input.len(),
{
    let head = v.buf.subrange(0, v.cursor);
    let tail = v.buf.subrange(v.cursor, v.buf.len() as int);
    if input.len() == 0 {
        assert(head + input + tail =~= v.buf);
    } else {
        let most = input.drop_last();
        assert forall|i: int| 0 <= i < most.len() implies 0x20 <= #[trigger] most[i] && most[i] != 0x7f by {
            assert(most[i] == input[i]);
        }
        law_typing_inserts_at_cursor(v, most);
        assert(0x20 <= input[input.len() - 1]);
        assert((head + most + tail).insert(v.cursor + most.len(), input.last()) =~= head + input + tail);
    }
}

/// Erasing backwards undoes typing one byte.
pub proof fn law_backspace_undoes_typing(v: LineView, byte: u8, erase: u8)
    requires
        v.wf(),
        v.escape is Idle,
        0x20 <= byte,
        byte != 0x7f,
        erase == 0x7f || erase == 0x08,
    ensures
        after_bytes(v, seq![byte, erase]) == v,
{
    let w = v.typed(byte);
    reveal_with_fuel(after_bytes, 3);
    assert(seq![byte, erase].drop_last() =~= seq![byte]);
    assert(seq![byte].drop_last() =~= seq![]);
    assert(w.killed_back_to(v.cursor).buf =~= v.buf);
}

/// The bytes that an arrow key sends.
pub open spec fn arrow(final_byte: u8) -> Seq<u8> {
    seq![0x1b, 0x5b, final_byte]
}

/// An arrow key acts as its final byte does on a line outside any escape
/// sequence, and leaves it outside one.
pub proof fn law_arrow(v: LineView, final_byte: u8)
    requires
        v.wf(),
        v.escape is Idle,
        is_csi_final(final_byte),
    ensures
        after_bytes(v, arrow(final_byte)) == after_csi(v, final_byte),
        after_csi(v, final_byte).escape is Idle,
{
    reveal_with_fuel(after_bytes, 4);
    assert(arrow(final_byte).drop_last() =~= seq![0x1b, 0x5b]);
    assert(seq![0x1bu8, 0x5b].drop_last() =~= seq![0x1b]);
    assert(seq![0x1bu8].drop_last() =~= seq![]);
}

/// Left and right undo each other, away from the end of the line that would
/// stop the first of them.
pub proof fn law_left_and_right_are_inverse(v: LineView)
    requires
        v.wf(),
        v.escape is Idle,
    ensures
        v.cursor > 0 ==> after_bytes(v, arrow(0x44) + arrow(0x43)) == v,
        v.cursor < v.buf.len() ==> after_bytes(v, arrow(0x43) + arrow(0x44)) == v,
{
    law_reads_may_be_split(v, arrow(0x44), arrow(0x43));
    law_reads_may_be_split(v, arrow(0x43), arrow(0x44));
    law_arrow(v, 0x44);
    law_arrow(v, 0x43);
    law_arrow(after_csi(v, 0x44), 0x43);
    law_arrow(after_csi(v, 0x43), 0x44);
}

/// Enter, ^C, ^D and the history arrows all leave the empty line, whatever it
/// held before.
pub proof fn law_line_end_and_history_reset(v: LineView, byte: u8)
    requires
        v.wf(),
        v.escape is Idle,
    ensures
        byte == 0x0d || byte == 0x0a || byte == 0x03 || byte == 0x04 ==> after_byte(v, byte) == (LineView {
            buf: seq![],
            cursor: 0,
            escape: EscapeView::Idle,
        }),
        byte == 0x41 || byte == 0x42 ==> after_bytes(v, seq![0x1bu8, 0x5b, byte]) == (LineView {
            buf: seq![],
            cursor: 0,
            escape: EscapeView::Idle,
        }),
{
    if byte == 0x41 || byte == 0x42 {
        law_arrow(v, byte);
    }
}

/// ^W removes exactly one word: a run of non-whitespace that reaches back to
/// whitespace or to the line start, with the whitespace between it and the
/// cursor.
pub proof fn law_kill_word_takes_one_word(buf: Seq<u8>, cursor: int)
    requires
        0 <= cursor <= buf.len(),
    ensures
        ({
            let from = word_start(buf, cursor);
            let to = skip_spaces_back(buf, cursor);
            &&& 0 <= from <= to <= cursor
            &&& from > 0 ==> tokens::is_space(buf[from - 1])
            &&& to > 0 ==> from < to
            &&& forall|k: int| from <= k < to ==> !tokens::is_space(#[trigger] buf[k])
            &&& forall|k: int| to <= k < cursor ==> tokens::is_space(#[trigger] buf[k])
        }),
{
    lemma_skip_spaces_back(buf, cursor);
    lemma_skip_word_back(buf, skip_spaces_back(buf, cursor));
}

/// ^U and ^K together remove the whole line, in either order.
pub proof fn law_kills_cover_the_line(v: LineView)
    requires
        v.wf(),
        v.escape is Idle,
    ensures
        after_byte(after_byte(v, 0x15), 0x0b) == empty_line(),
        after_byte(after_byte(v, 0x0b), 0x15) == empty_line(),
{
    assert(after_byte(after_byte(v, 0x15), 0x0b).buf =~= seq![]);
    assert(after_byte(after_byte(v, 0x0b), 0x15).buf =~= seq![]);
}

/// ^A moves the cursor to the line start and ^E to the line end, wherever it was;
/// neither touches the bytes of the line.
pub proof fn law_line_start_and_end(v: LineView)
    requires
        v.wf(),
        v.escape is Idle,
    ensures
        after_byte(v, 0x01) == (LineView { buf: v.buf, cursor: 0, escape: EscapeView::Idle }),
        after_byte(v, 0x05) == (LineView { buf: v.buf, cursor: v.buf.len() as int, escape: EscapeView::Idle }),
{
}

/// DEL and BS remove the byte before the cursor and nothing else; at the line
/// start they remove nothing.
pub proof fn law_erase_takes_one_byte(v: LineView, erase: u8)
    requires
        v.wf(),
        v.escape is Idle,
        erase == 0x7f || erase == 0x08,
    ensures
        v.cursor == 0 ==> after_byte(v, erase) == v,
        v.cursor > 0 ==> after_byte(v, erase) == (LineView {
            buf: v.buf.remove(v.cursor - 1),
            cursor: v.cursor - 1,
            escape: EscapeView::Idle,
        }),
{
    if v.cursor > 0 {
        assert(after_byte(v, erase).buf =~= v.buf.remove(v.cursor - 1));
    }
}

/// ^U leaves what stands behind the cursor, ^K what stands before it.
pub proof fn law_kills_split_at_the_cursor(v: LineView)
    requires
        v.wf(),
        v.escape is Idle,
    ensures
        after_byte(v, 0x15) == (LineView { buf: v.buf.skip(v.cursor), cursor: 0, escape: EscapeView::Idle }),
        after_byte(v, 0x0b) == (LineView { buf: v.buf.take(v.cursor), cursor: v.cursor, escape: EscapeView::Idle }),
{
    assert(after_byte(v, 0x15).buf =~= v.buf.skip(v.cursor));
    assert(after_byte(v, 0x0b).buf =~= v.buf.take(v.cursor));
}

/// ^W takes out the stretch before the cursor that is a word and the whitespace
/// behind it, and leaves the cursor where that stretch began.
pub proof fn law_kill_word(v: LineView)
    requires
        v.wf(),
        v.escape is Idle,
    ensures
        ({
            let w = after_byte(v, 0x17);
            &&& 0 <= w.cursor <= v.cursor
            &&& w.buf == v.buf.take(w.cursor) + v.buf.skip(v.cursor)
            &&& w.escape is Idle
            &&& w.cursor > 0 ==> tokens::is_space(v.buf[w.cursor - 1])
            &&& exists|to: int|
                w.cursor <= to <= v.cursor && (to > 0 ==> w.cursor < to) && #[trigger] is_word_and_spaces(
                    v.buf,
                    w.cursor,
                    to,
                    v.cursor,
                )
        }),
{
    let w = after_byte(v, 0x17);
    law_kill_word_takes_one_word(v.buf, v.cursor);
    assert(w.buf =~= v.buf.take(w.cursor) + v.buf.skip(v.cursor));
    assert(is_word_and_spaces(v.buf, w.cursor, skip_spaces_back(v.buf, v.cursor), v.cursor));
}

/// From `from` to `to` there is no whitespace, and from `to` to `end` nothing
/// else.
pub open spec fn is_word_and_spaces(buf: Seq<u8>, from: int, to: int, end: int) -> bool {
    &&& forall|k: int| from <= k < to ==> !tokens::is_space(#[trigger] buf[k])
    &&& forall|k: int| to <= k < end ==> tokens::is_space(#[trigger] buf[k])
}

/// The left and the right arrow move the cursor by one byte, as far as the line
/// goes. Every other sequence but a history arrow changes nothing.
pub proof fn law_cursor_arrows(v: LineView, final_byte: u8)
    requires
        v.wf(),
        v.escape is Idle,
    ensures
        after_bytes(v, seq![0x1bu8, 0x5b, 0x44]) == (LineView {
            cursor: if v.cursor == 0 {
                0
            } else {
                v.cursor - 1
            },
            ..v
        }),
        after_bytes(v, seq![0x1bu8, 0x5b, 0x43]) == (LineView {
            cursor: if v.cursor == v.buf.len() {
                v.cursor
            } else {
                v.cursor + 1
            },
            ..v
        }),
        (final_byte == 0x40 || 0x45 <= final_byte <= 0x7e) ==> after_bytes(v, seq![0x1bu8, 0x5b, final_byte]) == v,
{
    law_arrow(v, 0x44);
    law_arrow(v, 0x43);
    if final_byte == 0x40 || 0x45 <= final_byte <= 0x7e {
        law_arrow(v, final_byte);
    }
}

/// The parameters of a sequence make no difference, however many there are.
pub proof fn law_parameters_are_ignored(v: LineView, params: Seq<u8>, final_byte: u8)
    requires
        v.wf(),
        v.escape is Idle,
        forall|i: int| 0 <= i < params.len() ==> !(0x40 <= #[trigger] params[i] <= 0x7e),
        0x40 <= final_byte <= 0x7e,
    ensures
        after_bytes(v, seq![0x1bu8, 0x5b] + params + seq![final_byte]) == after_bytes(
            v,
            seq![0x1bu8, 0x5b, final_byte],
        ),
{
    let open = seq![0x1bu8, 0x5b];
    let all = open + params + seq![final_byte];
    lemma_in_parameters(v, params);
    law_arrow(v, final_byte);
    assert(all.drop_last() =~= open + params);
    assert(all.last() == final_byte);
}

proof fn lemma_in_parameters(v: LineView, params: Seq<u8>)
    requires
        v.wf(),
        v.escape is Idle,
        forall|i: int| 0 <= i < params.len() ==> !(0x40 <= #[trigger] params[i] <= 0x7e),
    ensures
        ({
            let w = after_bytes(v, seq![0x1bu8, 0x5b] + params);
            w.escape is Csi && w == v.escaped(w.escape)
        }),
    decreases params.len(),
{
    let open = seq![0x1bu8, 0x5b];
    if params.len() == 0 {
        reveal_with_fuel(after_bytes, 3);
        assert(open + params =~= open);
        assert(open.drop_last() =~= seq![0x1bu8]);
        assert(seq![0x1bu8].drop_last() =~= seq![]);
    } else {
        let most = params.drop_last();
        assert forall|i: int| 0 <= i < most.len() implies !(0x40 <= #[trigger] most[i] <= 0x7e) by {
            assert(most[i] == params[i]);
        }
        lemma_in_parameters(v, most);
        assert((open + params).drop_last() =~= open + most);
        assert((open + params).last() == params[params.len() - 1]);
    }
}

/// An ESC with any key but `[` behind it changes nothing, a repeated ESC counts
/// once, and so do control bytes without a meaning change nothing.
pub proof fn law_other_keys_change_nothing(v: LineView, byte: u8)
    requires
        v.wf(),
        v.escape is Idle,
    ensures
        byte != 0x5b && byte != 0x1b ==> after_bytes(v, seq![0x1bu8, byte]) == v,
        after_bytes(v, seq![0x1bu8, 0x1b]) == after_byte(v, 0x1b),
        after_byte(v, 0x1b).buf == v.buf && after_byte(v, 0x1b).cursor == v.cursor,
        byte < 0x20 && byte != 0x1b && byte != 0x0d && byte != 0x0a && byte != 0x03 && byte != 0x04 && byte != 0x08
            && byte != 0x01 && byte != 0x05 && byte != 0x15 && byte != 0x0b && byte != 0x17 ==> after_byte(v, byte)
            == v,
{
    reveal_with_fuel(after_bytes, 3);
    assert(seq![0x1bu8, byte].drop_last() =~= seq![0x1bu8]);
    assert(seq![0x1bu8, 0x1b].drop_last() =~= seq![0x1bu8]);
    assert(seq![0x1bu8].drop_last() =~= seq![]);
}

/// The line shows the text that its bytes encode, or nothing while they encode
/// none.
pub proof fn law_shown_text_is_encoded(v: LineView, t: Seq<char>)
    ensures
        v.buf == vstd::utf8::encode_utf8(t) ==> shown(v) == t,
        !vstd::utf8::valid_utf8(v.buf) ==> shown(v) == Seq::<char>::empty(),
        vstd::utf8::valid_utf8(v.buf) ==> vstd::utf8::encode_utf8(shown(v)) == v.buf,
{
    text::law_decoding_inverts_encoding(v.buf, t);
}

} // verus!
