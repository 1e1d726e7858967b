//! Host-terminal input: telling pasted bytes from typed ones, and keeping the
//! model of the command line up to date.
//!
//! The terminal brackets pasted text between two delimiters. Typed bytes feed
//! the line model and make the suggestions stale; pasted bytes do neither, until
//! the paste has ended.
//!
//! A history arrow or a reverse-search puts the line model out of step with the
//! shell: from then on the line counts as unknown, until the shell reports its
//! next prompt.
//!
//! Every byte is forwarded to the shell in any case. That is the caller's part,
//! and nothing here ends it.

use vstd::prelude::*;

use crate::debouncer;
use crate::debouncer::SendOutcome;
use crate::line_buffer;
use crate::line_buffer::{LineBuffer, LineView};
use crate::output::{EventView, OscEvent};

verus! {

broadcast use vstd::seq_lib::group_seq_properties;

/// Bracketed-paste introducer: `ESC [ 2 0 0 ~`.
pub const PASTE_START: [u8; 6] = [0x1b, 0x5b, 0x32, 0x30, 0x30, 0x7e];

/// Bracketed-paste terminator: `ESC [ 2 0 1 ~`.
pub const PASTE_END: [u8; 6] = [0x1b, 0x5b, 0x32, 0x30, 0x31, 0x7e];

#[derive(Debug, Clone, Copy, PartialEq, Eq, Structural)]
enum PasteState {
    /// Scanning for [`PASTE_START`].
    Normal,
    /// Scanning for [`PASTE_END`].
    Paste,
}

/// State machine that scans a host-terminal byte stream for bracketed-paste
/// delimiters. It observes the stream and never changes it.
#[derive(Debug)]
pub struct PasteDetector {
    state: PasteState,
    /// Number of leading bytes of the currently-expected delimiter matched
    /// so far.
    match_progress: u8,
}

/// What observing a single byte produced. `EnteredPaste`/`ExitedPaste` are
/// the precise byte that completed the corresponding delimiter: exactly
/// one per transition.
#[derive(Debug, Clone, Copy, PartialEq, Eq, Structural)]
pub enum DetectorEvent {
    /// Byte is part of normal typing.
    Normal,
    /// Byte is part of pasted content (between delimiters).
    Paste,
    /// Byte completed `PASTE_START`; pasted content follows.
    EnteredPaste,
    /// Byte completed `PASTE_END`; normal typing follows.
    ExitedPaste,
}

/// What a [`PasteDetector`] stands for.
pub struct DetectorView {
    /// Whether pasted content is being read.
    pub in_paste: bool,
    /// How many leading bytes of the awaited delimiter were just read.
    pub progress: int,
}

/// The delimiter that ends the current stretch of input.
pub open spec fn awaited(in_paste: bool) -> Seq<u8> {
    if in_paste {
        PASTE_END@
    } else {
        PASTE_START@
    }
}

impl DetectorView {
    pub open spec fn wf(self) -> bool {
        0 <= self.progress < 6
    }

    /// Whether `byte` is the next byte of the awaited delimiter.
    pub open spec fn advances(self, byte: u8) -> bool {
        byte == awaited(self.in_paste)[self.progress]
    }

    /// Whether `byte` completes the awaited delimiter.
    pub open spec fn completes(self, byte: u8) -> bool {
        self.advances(byte) && self.progress == 5
    }
}

/// A detector that has read nothing yet.
pub open spec fn fresh_detector() -> DetectorView {
    DetectorView { in_paste: false, progress: 0 }
}

/// The detector after one more byte. A byte that breaks the match starts a new
/// one if it is ESC, with which both delimiters begin.
pub open spec fn after_byte(v: DetectorView, byte: u8) -> DetectorView {
    if v.completes(byte) {
        DetectorView { in_paste: !v.in_paste, progress: 0 }
    } else if v.advances(byte) {
        DetectorView { progress: v.progress + 1, ..v }
    } else if byte == 0x1b {
        DetectorView { progress: 1, ..v }
    } else {
        DetectorView { progress: 0, ..v }
    }
}

/// How the detector classifies `byte`.
pub open spec fn event_of(v: DetectorView, byte: u8) -> DetectorEvent {
    if v.completes(byte) {
        if v.in_paste {
            DetectorEvent::ExitedPaste
        } else {
            DetectorEvent::EnteredPaste
        }
    } else if v.in_paste {
        DetectorEvent::Paste
    } else {
        DetectorEvent::Normal
    }
}

/// The detector after the bytes `input`, one by one.
pub open spec fn after_bytes(v: DetectorView, input: Seq<u8>) -> DetectorView
    decreases input.len(),
{
    if input.len() == 0 {
        v
    } else {
        after_byte(after_bytes(v, input.drop_last()), input.last())
    }
}

impl View for PasteDetector {
    type V = DetectorView;

    closed spec fn view(&self) -> DetectorView {
        DetectorView { in_paste: self.state is Paste, progress: self.match_progress as int }
    }
}

impl PasteDetector {
    /// The match in progress is incomplete.
    pub open spec fn wf(&self) -> bool {
        self@.wf()
    }

    pub fn new() -> (r: Self)
        ensures
            r.wf(),
            r@ == fresh_detector(),
    {
        Self { state: PasteState::Normal, match_progress: 0 }
    }

    pub fn in_paste(&self) -> (r: bool)
        ensures
            r == self@.in_paste,
    {
        matches!(self.state, PasteState::Paste)
    }

    /// Feed one byte. Returns the classification for that byte.
    pub fn observe(&mut self, byte: u8) -> (r: DetectorEvent)
        requires
            old(self).wf(),
        ensures
            final(self).wf(),
            final(self)@ == after_byte(old(self)@, byte),
            r == event_of(old(self)@, byte),
    {
        let idx = self.match_progress as usize;
        let expected: u8 = match self.state {
            PasteState::Normal => PASTE_START[idx],
            PasteState::Paste => PASTE_END[idx],
        };
        if byte == expected {
            self.match_progress += 1;
            if self.match_progress == 6 {
                self.match_progress = 0;
                return match self.state {
                    PasteState::Paste => {
                        self.state = PasteState::Normal;
                        DetectorEvent::ExitedPaste
                    },
                    PasteState::Normal => {
                        self.state = PasteState::Paste;
                        DetectorEvent::EnteredPaste
                    },
                };
            }
        } else {
            // If this byte is itself ESC, it's the start of a fresh
            // attempted match; otherwise reset completely.
            self.match_progress = if byte == 0x1b {
                1
            } else {
                0
            };
        }
        match self.state {
            PasteState::Normal => DetectorEvent::Normal,
            PasteState::Paste => DetectorEvent::Paste,
        }
    }
}

/// Everything the program derives from typed input: the paste detector, the
/// model of the command line behind it, and whether anybody wants to hear of
/// changes.
#[derive(Debug)]
pub struct InputModel {
    detector: PasteDetector,
    line: LineBuffer,
    synced: bool,
    ticking: bool,
}

/// What a [`InputModel`] stands for.
pub struct InputView {
    pub detector: DetectorView,
    pub line: LineView,
    /// Whether the line model is in step with the shell. While it is not, it
    /// holds no line.
    pub synced: bool,
    /// Whether somebody still receives ticks.
    pub ticking: bool,
}

/// What a chunk of input calls for.
pub struct ChunkOutcome {
    /// The new line and cursor, if they may have changed.
    pub line_update: Option<(String, usize)>,
    /// Whether the suggestions are stale.
    pub tick: bool,
}

/// The progress through a chunk of input.
pub struct ChunkView {
    pub input: InputView,
    /// Something was typed, or a paste ended.
    pub tick_needed: bool,
    /// The line or its cursor changed, or the model was reset.
    pub line_changed: bool,
}

/// One more byte of a chunk. A typed byte goes to the line model, which stays
/// empty once a history arrow or a reverse-search has put it out of step. The end
/// of a paste resets it, because the pasted bytes went straight to the shell. The
/// bytes of a paste touch nothing.
pub open spec fn chunk_byte(c: ChunkView, byte: u8) -> ChunkView {
    let detector = after_byte(c.input.detector, byte);
    match event_of(c.input.detector, byte) {
        DetectorEvent::Normal => {
            let synced = c.input.synced && !line_buffer::loses_track(c.input.line, byte);
            let typed = line_buffer::after_byte(c.input.line, byte);
            let line = if synced {
                typed
            } else {
                typed.forgotten()
            };
            ChunkView {
                input: InputView { detector, line, synced, ..c.input },
                tick_needed: true,
                line_changed: c.line_changed || line.buf != c.input.line.buf || line.cursor != c.input.line.cursor,
            }
        },
        DetectorEvent::ExitedPaste => ChunkView {
            input: InputView { detector, line: line_buffer::empty_line(), ..c.input },
            tick_needed: true,
            line_changed: true,
        },
        DetectorEvent::EnteredPaste | DetectorEvent::Paste => ChunkView {
            input: InputView { detector, ..c.input },
            ..c
        },
    }
}

/// The progress after the bytes `chunk`.
pub open spec fn chunk_bytes(c: ChunkView, chunk: Seq<u8>) -> ChunkView
    decreases chunk.len(),
{
    if chunk.len() == 0 {
        c
    } else {
        chunk_byte(chunk_bytes(c, chunk.drop_last()), chunk.last())
    }
}

/// The progress before the first byte of a chunk.
pub open spec fn chunk_start(v: InputView) -> ChunkView {
    ChunkView { input: v, tick_needed: false, line_changed: false }
}

impl View for InputModel {
    type V = InputView;

    closed spec fn view(&self) -> InputView {
        InputView { detector: self.detector@, line: self.line@, synced: self.synced, ticking: self.ticking }
    }
}

impl InputView {
    pub open spec fn wf(self) -> bool {
        &&& self.detector.wf()
        &&& self.line.wf()
        &&& !self.synced ==> self.line.buf.len() == 0
    }
}

/// The input before anything was typed.
pub open spec fn fresh_input() -> InputView {
    InputView { detector: fresh_detector(), line: line_buffer::empty_line(), synced: true, ticking: true }
}

/// Whether what the shell reports starts a new line: a prompt is drawn, or a
/// command runs.
pub open spec fn resets_line(event: EventView) -> bool {
    event is PromptStart || event is CommandStart
}

/// Whether what the shell reports puts the line model in step again: a prompt
/// is drawn, or was drawn.
pub open spec fn resyncs(event: EventView) -> bool {
    event is PromptStart || event is CommandInputStart
}

/// The input after what the shell reported.
pub open spec fn after_event(v: InputView, event: EventView) -> InputView {
    InputView {
        line: if resets_line(event) {
            line_buffer::empty_line()
        } else {
            v.line
        },
        synced: v.synced || resyncs(event),
        ..v
    }
}

/// The input after an attempt to send a tick. Without a receiver no more ticks
/// are sent; all the rest goes on.
pub open spec fn after_tick(v: InputView, outcome: SendOutcome) -> InputView {
    InputView { ticking: v.ticking && debouncer::goes_on(outcome), ..v }
}

impl InputModel {
    pub open spec fn wf(&self) -> bool {
        self@.wf()
    }

    pub fn new() -> (r: Self)
        ensures
            r.wf(),
            r@ == fresh_input(),
    {
        InputModel { detector: PasteDetector::new(), line: LineBuffer::new(), synced: true, ticking: true }
    }

    /// Take note of what the shell reported. Returns whether the line was reset.
    pub fn on_shell_event(&mut self, event: &OscEvent) -> (line_reset: bool)
        requires
            old(self).wf(),
        ensures
            final(self).wf(),
            final(self)@ == after_event(old(self)@, event@),
            line_reset == resets_line(event@),
    {
        match event {
            OscEvent::Osc133PromptStart => {
                self.line.reset();
                self.synced = true;
                true
            },
            OscEvent::Osc133CommandInputStart => {
                self.synced = true;
                false
            },
            OscEvent::Osc133CommandStart => {
                self.line.reset();
                true
            },
            OscEvent::Osc133CommandDone(_) => false,
            OscEvent::Osc7Cwd(_) => false,
        }
    }

    /// Take note of what became of a tick. Once nobody receives ticks, no chunk
    /// calls for one any more; the input itself is observed as before.
    pub fn on_tick_sent(&mut self, outcome: SendOutcome)
        requires
            old(self).wf(),
        ensures
            final(self).wf(),
            final(self)@ == after_tick(old(self)@, outcome),
    {
        if !outcome.sender_goes_on() {
            self.ticking = false;
        }
    }

    /// Feed a chunk of host input. The line is reported only if it changed. The
    /// suggestions go stale only if something was typed or a paste ended, and
    /// never while the chunk leaves a paste open or nobody receives ticks.
    pub fn observe_chunk(&mut self, chunk: &[u8]) -> (r: ChunkOutcome)
        requires
            old(self).wf(),
        ensures
            final(self).wf(),
            ({
                let end = chunk_bytes(chunk_start(old(self)@), chunk@);
                &&& final(self)@ == end.input
                &&& r.tick == (end.tick_needed && !end.input.detector.in_paste && end.input.ticking)
                &&& r.line_update is Some == end.line_changed
                &&& r.line_update matches Some(u) ==> u.0@ == line_buffer::shown(end.input.line) && u.1
                    == end.input.line.cursor
            }),
    {
        let mut tick_needed = false;
        let mut line_changed = false;
        let mut i: usize = 0;
        assert(chunk@.subrange(0, 0) =~= seq![]);
        while i < chunk.len()
            invariant
                i <= chunk@.len(),
                self.wf(),
                chunk_bytes(chunk_start(old(self)@), chunk@.subrange(0, i as int)) == (ChunkView {
                    input: self@,
                    tick_needed,
                    line_changed,
                }),
            decreases chunk@.len() - i,
        {
            let byte = chunk[i];
            match self.detector.observe(byte) {
                DetectorEvent::Normal => {
                    tick_needed = true;
                    let had_text = !self.line.is_empty();
                    if self.line.loses_track(byte) {
                        self.synced = false;
                    }
                    let mut changed = self.line.observe(byte);
                    if !self.synced {
                        self.line.forget();
                        changed = had_text;
                    }
                    if changed {
                        line_changed = true;
                    }
                },
                DetectorEvent::ExitedPaste => {
                    tick_needed = true;
                    self.line.reset();
                    line_changed = true;
                },
                DetectorEvent::EnteredPaste => {},
                DetectorEvent::Paste => {},
            }
            assert(chunk@.subrange(0, i + 1).drop_last() =~= chunk@.subrange(0, i as int));
            i += 1;
        }
        assert(chunk@.subrange(0, chunk@.len() as int) =~= chunk@);
        let line_update = if line_changed {
            Some(self.line.snapshot())
        } else {
            None
        };
        ChunkOutcome { line_update, tick: tick_needed && !self.detector.in_paste() && self.ticking }
    }
}

/// The last `k` bytes of `seen` are the first `k` bytes of `delimiter`.
pub open spec fn ends_with(seen: Seq<u8>, delimiter: Seq<u8>, k: int) -> bool {
    &&& 0 <= k <= seen.len()
    &&& k <= delimiter.len()
    &&& forall|j: int| 0 <= j < k ==> seen[seen.len() - k + j] == #[trigger] delimiter[j]
}

/// The detector's progress is the longest part of the awaited delimiter with
/// which `seen` ends, and `seen` does not end with all of it. `seen` is what was
/// read since the last transition.
pub open spec fn tracks(v: DetectorView, seen: Seq<u8>) -> bool {
    &&& v.wf()
    &&& ends_with(seen, awaited(v.in_paste), v.progress)
    &&& forall|k: int| v.progress < k <= 6 ==> !#[trigger] ends_with(seen, awaited(v.in_paste), k)
}

proof fn lemma_delimiters(in_paste: bool)
    ensures
        awaited(in_paste).len() == 6,
        awaited(in_paste)[0] == 0x1b,
        forall|j: int| 0 < j < 6 ==> #[trigger] awaited(in_paste)[j] != 0x1b,
        awaited(in_paste) == (if in_paste {
            seq![0x1bu8, 0x5b, 0x32, 0x30, 0x31, 0x7e]
        } else {
            seq![0x1bu8, 0x5b, 0x32, 0x30, 0x30, 0x7e]
        }),
{
    assert(PASTE_END@ =~= seq![0x1bu8, 0x5b, 0x32, 0x30, 0x31, 0x7e]);
    assert(PASTE_START@ =~= seq![0x1bu8, 0x5b, 0x32, 0x30, 0x30, 0x7e]);
}

/// The detector changes sides exactly at the byte that completes the awaited
/// delimiter: a byte is classified as a transition if and only if the bytes read
/// since the last transition now end with the whole delimiter. In both cases the
/// detector goes on tracking the stream.
pub proof fn law_transitions_exactly_at_delimiters(v: DetectorView, seen: Seq<u8>, byte: u8)
    requires
        tracks(v, seen),
    ensures
        ({
            let event = event_of(v, byte);
            let complete = ends_with(seen.push(byte), awaited(v.in_paste), 6);
            &&& complete <==> event is EnteredPaste || event is ExitedPaste
            &&& complete ==> after_byte(v, byte).in_paste == !v.in_paste && tracks(after_byte(v, byte), seq![])
            &&& !complete ==> after_byte(v, byte).in_paste == v.in_paste && tracks(
                after_byte(v, byte),
                seen.push(byte),
            )
        }),
{
    let d = awaited(v.in_paste);
    let p = v.progress;
    let w = after_byte(v, byte);
    let more = seen.push(byte);
    lemma_delimiters(v.in_paste);
    lemma_delimiters(!v.in_paste);
    assert forall|k: int| 1 <= k <= 6 implies (#[trigger] ends_with(more, d, k) <==> ends_with(seen, d, k - 1) && byte
        == d[k - 1]) by {
        if ends_with(more, d, k) {
            assert(more[more.len() - k + (k - 1)] == d[k - 1]);
            assert forall|j: int| 0 <= j < k - 1 implies seen[seen.len() - (k - 1) + j] == #[trigger] d[j] by {
                assert(more[more.len() - k + j] == d[j]);
            }
        }
        if ends_with(seen, d, k - 1) && byte == d[k - 1] {
            assert forall|j: int| 0 <= j < k implies more[more.len() - k + j] == #[trigger] d[j] by {
                if j < k - 1 {
                    assert(seen[seen.len() - (k - 1) + j] == d[j]);
                }
            }
        }
    }
    if v.advances(byte) {
        assert(ends_with(more, d, p + 1));
        assert forall|k: int| p + 1 < k <= 6 implies !#[trigger] ends_with(more, d, k) by {
            assert(!ends_with(seen, d, k - 1));
        }
    } else {
        assert forall|k: int| 1 < k <= 6 implies !#[trigger] ends_with(more, d, k) by {
            if ends_with(more, d, k) {
                let m = k - 1;
                assert(ends_with(seen, d, m));
                assert(m <= p);
                assert(m != p);
                // Both matches end here, so the shorter one would begin with ESC
                // in the middle of the longer one.
                assert(seen[seen.len() - m + 0] == d[0]);
                assert(seen[seen.len() - p + (p - m)] == d[p - m]);
            }
        }
        assert(ends_with(more, d, 1) <==> byte == d[0]) by {
            assert(ends_with(seen, d, 0));
        }
        assert(ends_with(more, d, 0));
    }
    if w.in_paste != v.in_paste {
        assert(tracks(w, seq![]));
    }
}

/// A fresh detector tracks the empty stream.
pub proof fn law_fresh_detector_tracks()
    ensures
        tracks(fresh_detector(), seq![]),
{
    lemma_delimiters(false);
}

/// How the input is split into reads makes no difference.
pub proof fn law_reads_may_be_split(v: DetectorView, a: Seq<u8>, b: Seq<u8>)
    ensures
        after_bytes(v, a + b) == after_bytes(after_bytes(v, a), b),
    decreases b.len(),
{
    if b.len() == 0 {
        assert(a + b =~= a);
    } else {
        assert((a + b).drop_last() =~= a + b.drop_last());
        law_reads_may_be_split(v, a, b.drop_last());
    }
}

/// The introducer always enters a paste, whatever partial match came before it.
/// Inside a paste it changes nothing. The terminator always leaves the paste.
pub proof fn law_delimiters_are_always_recognized(v: DetectorView)
    requires
        v.wf(),
    ensures
        !v.in_paste ==> after_bytes(v, PASTE_START@) == (DetectorView { in_paste: true, progress: 0 }),
        v.in_paste ==> after_bytes(v, PASTE_START@).in_paste,
        v.in_paste ==> after_bytes(v, PASTE_END@) == fresh_detector(),
{
    lemma_delimiters(false);
    lemma_delimiters(true);
    lemma_unrolled(v, PASTE_START@);
    lemma_unrolled(v, PASTE_END@);
}

proof fn lemma_unrolled(v: DetectorView, d: Seq<u8>)
    requires
        d.len() == 6,
    ensures
        after_bytes(v, d) == after_byte(
            after_byte(after_byte(after_byte(after_byte(after_byte(v, d[0]), d[1]), d[2]), d[3]), d[4]),
            d[5],
        ),
{
    reveal_with_fuel(after_bytes, 7);
    assert(d.drop_last() =~= d.subrange(0, 5));
    assert(d.subrange(0, 5).drop_last() =~= d.subrange(0, 4));
    assert(d.subrange(0, 4).drop_last() =~= d.subrange(0, 3));
    assert(d.subrange(0, 3).drop_last() =~= d.subrange(0, 2));
    assert(d.subrange(0, 2).drop_last() =~= d.subrange(0, 1));
    assert(d.subrange(0, 1).drop_last() =~= seq![]);
}

/// After `seen`, the delimiter is completed by a byte of `content`.
pub open spec fn completed_in(delimiter: Seq<u8>, seen: Seq<u8>, content: Seq<u8>) -> bool {
    exists|i: int|
        0 < i <= content.len() && #[trigger] ends_with(
            seen + content.subrange(0, i),
            delimiter,
            delimiter.len() as int,
        )
}

proof fn lemma_not_completed_earlier(delimiter: Seq<u8>, seen: Seq<u8>, content: Seq<u8>)
    requires
        content.len() > 0,
        !completed_in(delimiter, seen, content),
    ensures
        !completed_in(delimiter, seen, content.drop_last()),
{
    let most = content.drop_last();
    let n = delimiter.len() as int;
    if completed_in(delimiter, seen, most) {
        let i = choose|i: int|
            0 < i <= most.len() && #[trigger] ends_with(seen + most.subrange(0, i), delimiter, n);
        assert(most.subrange(0, i) =~= content.subrange(0, i));
        assert(ends_with(seen + content.subrange(0, i), delimiter, n));
    }
}

/// Pasted content, however long, stays pasted content until its terminator is
/// complete, and input without an introducer stays typed input, whatever part of
/// the delimiter was read before. Nothing in between is a transition.
pub proof fn law_no_transition_without_delimiter(v: DetectorView, seen: Seq<u8>, content: Seq<u8>)
    requires
        tracks(v, seen),
        !completed_in(awaited(v.in_paste), seen, content),
    ensures
        after_bytes(v, content).in_paste == v.in_paste,
        tracks(after_bytes(v, content), seen + content),
        forall|i: int|
            0 <= i < content.len() ==> {
                let event = event_of(after_bytes(v, content.subrange(0, i)), #[trigger] content[i]);
                event == if v.in_paste {
                    DetectorEvent::Paste
                } else {
                    DetectorEvent::Normal
                }
            },
    decreases content.len(),
{
    let d = awaited(v.in_paste);
    lemma_delimiters(v.in_paste);
    if content.len() == 0 {
        assert(seen + content =~= seen);
    } else {
        let most = content.drop_last();
        lemma_not_completed_earlier(d, seen, content);
        law_no_transition_without_delimiter(v, seen, most);
        let w = after_bytes(v, most);
        law_transitions_exactly_at_delimiters(w, seen + most, content.last());
        assert((seen + most).push(content.last()) =~= seen + content);
        assert(content.subrange(0, content.len() as int) =~= content);
        assert(!ends_with(seen + content.subrange(0, content.len() as int), d, 6));
        assert forall|i: int| 0 <= i < content.len() implies ({
            let event = event_of(after_bytes(v, content.subrange(0, i)), #[trigger] content[i]);
            event == if v.in_paste {
                DetectorEvent::Paste
            } else {
                DetectorEvent::Normal
            }
        }) by {
            if i < most.len() {
                assert(most[i] == content[i]);
                assert(most.subrange(0, i) =~= content.subrange(0, i));
            } else {
                assert(content.subrange(0, i) =~= most);
            }
        }
    }
}

proof fn lemma_chunk_detector(c: ChunkView, chunk: Seq<u8>)
    ensures
        chunk_bytes(c, chunk).input.detector == after_bytes(c.input.detector, chunk),
    decreases chunk.len(),
{
    if chunk.len() > 0 {
        lemma_chunk_detector(c, chunk.drop_last());
    }
}

/// How the input is split into chunks makes no difference to the model.
pub proof fn law_chunks_may_be_split(v: InputView, a: Seq<u8>, b: Seq<u8>)
    ensures
        chunk_bytes(chunk_start(v), a + b).input == chunk_bytes(
            chunk_start(chunk_bytes(chunk_start(v), a).input),
            b,
        ).input,
    decreases b.len(),
{
    if b.len() == 0 {
        assert(a + b =~= a);
    } else {
        assert((a + b).drop_last() =~= a + b.drop_last());
        law_chunks_may_be_split(v, a, b.drop_last());
    }
}

/// A chunk that lies wholly inside a paste touches nothing but the detector: the
/// line stays as it was, it is not reported, and the suggestions do not go stale.
/// `seen` is what was read of the paste before.
pub proof fn law_paste_content_is_inert(v: InputView, seen: Seq<u8>, content: Seq<u8>)
    requires
        v.detector.in_paste,
        tracks(v.detector, seen),
        !completed_in(PASTE_END@, seen, content),
    ensures
        ({
            let end = chunk_bytes(chunk_start(v), content);
            &&& end.input == (InputView { detector: end.input.detector, ..v })
            &&& end.input.detector.in_paste
            &&& !end.tick_needed
            &&& !end.line_changed
        }),
    decreases content.len(),
{
    lemma_delimiters(true);
    law_no_transition_without_delimiter(v.detector, seen, content);
    lemma_chunk_detector(chunk_start(v), content);
    if content.len() > 0 {
        let most = content.drop_last();
        lemma_not_completed_earlier(PASTE_END@, seen, content);
        law_paste_content_is_inert(v, seen, most);
        lemma_chunk_detector(chunk_start(v), most);
        assert(content.subrange(0, content.len() - 1) =~= most);
        assert(event_of(after_bytes(v.detector, content.subrange(0, content.len() - 1)), content[content.len() - 1])
            == DetectorEvent::Paste);
    }
}

/// After a paste has ended the line model is empty again, whatever was pasted.
pub proof fn law_paste_end_resets_line(v: InputView, byte: u8)
    requires
        event_of(v.detector, byte) is ExitedPaste,
    ensures
        chunk_byte(chunk_start(v), byte).input.line == line_buffer::empty_line(),
        chunk_byte(chunk_start(v), byte).line_changed,
        chunk_byte(chunk_start(v), byte).tick_needed,
{
}

/// A history arrow that is typed puts the line model out of step, and empties it.
pub proof fn law_history_arrow_desyncs(v: InputView, byte: u8)
    requires
        v.wf(),
        event_of(v.detector, byte) is Normal,
        v.line.escape is Csi,
        byte == 0x41 || byte == 0x42,
    ensures
        !chunk_byte(chunk_start(v), byte).input.synced,
        chunk_byte(chunk_start(v), byte).input.line == line_buffer::empty_line(),
        chunk_byte(chunk_start(v), byte).line_changed == (v.line.buf.len() > 0),
{
    assert(v.line.buf.len() == 0 ==> v.line.buf =~= Seq::<u8>::empty());
}

/// A reverse-search that is typed puts the line model out of step, and empties
/// it.
pub proof fn law_reverse_search_desyncs(v: InputView, byte: u8)
    requires
        v.wf(),
        event_of(v.detector, byte) is Normal,
        v.line.escape is Idle,
        byte == 0x12,
    ensures
        !chunk_byte(chunk_start(v), byte).input.synced,
        chunk_byte(chunk_start(v), byte).input.line == line_buffer::empty_line(),
        chunk_byte(chunk_start(v), byte).line_changed == (v.line.buf.len() > 0),
{
    assert(v.line.buf.len() == 0 ==> v.line.buf =~= Seq::<u8>::empty());
}

/// While the line model is out of step, no input brings it back: whatever is
/// typed, pasted or submitted, there is no line to suggest anything for.
pub proof fn law_input_does_not_resync(v: InputView, chunk: Seq<u8>)
    requires
        v.wf(),
        !v.synced,
    ensures
        !chunk_bytes(chunk_start(v), chunk).input.synced,
        line_buffer::shown(chunk_bytes(chunk_start(v), chunk).input.line) == Seq::<char>::empty(),
{
    lemma_stays_empty(v, chunk);
    line_buffer::lemma_empty_line_shows_nothing(chunk_bytes(chunk_start(v), chunk).input.line);
}

proof fn lemma_stays_empty(v: InputView, chunk: Seq<u8>)
    requires
        v.wf(),
        !v.synced,
    ensures
        !chunk_bytes(chunk_start(v), chunk).input.synced,
        chunk_bytes(chunk_start(v), chunk).input.line.buf.len() == 0,
    decreases chunk.len(),
{
    if chunk.len() > 0 {
        lemma_stays_empty(v, chunk.drop_last());
    }
}

/// The shell's report of a prompt puts the line model in step again. The start
/// of a prompt also starts a new line, as does the start of a command.
pub proof fn law_prompt_resyncs(v: InputView)
    requires
        v.wf(),
    ensures
        after_event(v, EventView::PromptStart) == (InputView {
            line: line_buffer::empty_line(),
            synced: true,
            ..v
        }),
        after_event(v, EventView::CommandInputStart) == (InputView { synced: true, ..v }),
        after_event(v, EventView::CommandStart) == (InputView { line: line_buffer::empty_line(), ..v }),
{
}

/// Without a receiver of ticks only the ticks end: the line is followed and
/// reported just as it would be with one.
pub proof fn law_only_ticks_end(v: InputView, chunk: Seq<u8>)
    ensures
        ({
            let gone = after_tick(v, SendOutcome::Disconnected);
            let end = chunk_bytes(chunk_start(v), chunk);
            let silent = chunk_bytes(chunk_start(gone), chunk);
            &&& end.input.ticking == v.ticking
            &&& silent.input == (InputView { ticking: false, ..end.input })
            &&& silent.line_changed == end.line_changed
        }),
    decreases chunk.len(),
{
    if chunk.len() > 0 {
        law_only_ticks_end(v, chunk.drop_last());
    }
}

/// While the model is in step, a typed byte that neither ends a history arrow nor
/// starts a reverse-search leaves it in step, and the line is then what the line
/// buffer makes of that byte. It is reported exactly if its bytes or its cursor
/// changed, and the suggestions go stale in any case.
pub proof fn law_typed_byte_edits_the_line(v: InputView, byte: u8)
    requires
        v.synced,
        event_of(v.detector, byte) is Normal,
        !(v.line.escape is Csi && (byte == 0x41 || byte == 0x42)),
        !(v.line.escape is Idle && byte == 0x12),
    ensures
        ({
            let end = chunk_byte(chunk_start(v), byte);
            let line = line_buffer::after_byte(v.line, byte);
            &&& end.input.synced
            &&& end.input.line == line
            &&& end.input.ticking == v.ticking
            &&& end.line_changed == (line.buf != v.line.buf || line.cursor != v.line.cursor)
            &&& end.tick_needed
        }),
{
}

/// Typed input without history arrows and reverse-searches gives the line that
/// the line buffer makes of all of its bytes, and the model stays in step. `seen`
/// is what was read since the last paste.
pub proof fn law_typed_input_edits_the_line(v: InputView, seen: Seq<u8>, chunk: Seq<u8>)
    requires
        v.synced,
        !v.detector.in_paste,
        tracks(v.detector, seen),
        !completed_in(seq![0x1bu8, 0x5b, 0x32, 0x30, 0x30, 0x7e], seen, chunk),
        forall|i: int|
            0 <= i < chunk.len() ==> {
                let line = line_buffer::after_bytes(v.line, chunk.take(i));
                &&& !(line.escape is Csi && (#[trigger] chunk[i] == 0x41 || chunk[i] == 0x42))
                &&& !(line.escape is Idle && chunk[i] == 0x12)
            },
    ensures
        ({
            let end = chunk_bytes(chunk_start(v), chunk);
            &&& end.input.synced
            &&& !end.input.detector.in_paste
            &&& end.input.line == line_buffer::after_bytes(v.line, chunk)
            &&& end.input.ticking == v.ticking
            &&& end.tick_needed == (chunk.len() > 0)
            &&& (end.input.line.buf != v.line.buf || end.input.line.cursor != v.line.cursor) ==> end.line_changed
        }),
    decreases chunk.len(),
{
    let d = seq![0x1bu8, 0x5b, 0x32, 0x30, 0x30, 0x7e];
    lemma_delimiters(false);
    law_no_transition_without_delimiter(v.detector, seen, chunk);
    lemma_chunk_detector(chunk_start(v), chunk);
    if chunk.len() > 0 {
        let most = chunk.drop_last();
        let last = chunk.len() - 1;
        lemma_not_completed_earlier(d, seen, chunk);
        assert forall|i: int| 0 <= i < most.len() implies {
            let line = line_buffer::after_bytes(v.line, most.take(i));
            &&& !(line.escape is Csi && (#[trigger] most[i] == 0x41 || most[i] == 0x42))
            &&& !(line.escape is Idle && most[i] == 0x12)
        } by {
            assert(most.take(i) =~= chunk.take(i));
            assert(most[i] == chunk[i]);
        }
        law_typed_input_edits_the_line(v, seen, most);
        lemma_chunk_detector(chunk_start(v), most);
        assert(chunk.take(last) =~= most);
        assert(chunk.subrange(0, last) =~= most);
        assert(chunk[last] == chunk.last());
    }
}

proof fn lemma_whole_terminator(content: Seq<u8>)
    ensures
        ends_with(
            (content + seq![0x1bu8, 0x5b, 0x32, 0x30, 0x31]).push(0x7e),
            seq![0x1bu8, 0x5b, 0x32, 0x30, 0x31, 0x7e],
            6,
        ),
{
    let d = seq![0x1bu8, 0x5b, 0x32, 0x30, 0x31, 0x7e];
    let whole = (content + seq![0x1bu8, 0x5b, 0x32, 0x30, 0x31]).push(0x7e);
    assert(whole =~= content + d);
    assert forall|j: int| 0 <= j < 6 implies whole[whole.len() - 6 + j] == #[trigger] d[j] by {
        assert((content + d)[content.len() + j] == d[j]);
    }
}

proof fn lemma_terminator_ends_the_paste(v: DetectorView, content: Seq<u8>)
    requires
        v.in_paste,
        v.progress == 0,
        !completed_in(PASTE_END@, seq![], content + seq![0x1bu8, 0x5b, 0x32, 0x30, 0x31]),
    ensures
        tracks(v, seq![]),
        event_of(after_bytes(v, content + seq![0x1bu8, 0x5b, 0x32, 0x30, 0x31]), 0x7e) is ExitedPaste,
{
    let none: Seq<u8> = seq![];
    let most = content + seq![0x1bu8, 0x5b, 0x32, 0x30, 0x31];
    lemma_delimiters(true);
    assert(tracks(v, none));
    law_no_transition_without_delimiter(v, none, most);
    assert(none + most =~= most);
    law_transitions_exactly_at_delimiters(after_bytes(v, most), most, 0x7e);
    lemma_whole_terminator(content);
}

/// The rest of a paste and its terminator leave the model as it was but for an
/// empty line, which is reported, whatever was pasted.
pub proof fn law_paste_leaves_an_empty_line(v: InputView, content: Seq<u8>)
    requires
        v.detector.in_paste,
        v.detector.progress == 0,
        !completed_in(
            seq![0x1bu8, 0x5b, 0x32, 0x30, 0x31, 0x7e],
            seq![],
            content + seq![0x1bu8, 0x5b, 0x32, 0x30, 0x31],
        ),
    ensures
        ({
            let end = chunk_bytes(chunk_start(v), content + seq![0x1bu8, 0x5b, 0x32, 0x30, 0x31, 0x7e]);
            &&& end.input == (InputView {
                detector: DetectorView { in_paste: false, progress: 0 },
                line: line_buffer::empty_line(),
                ..v
            })
            &&& end.line_changed
            &&& end.tick_needed
        }),
{
    let all = content + seq![0x1bu8, 0x5b, 0x32, 0x30, 0x31, 0x7e];
    let most = content + seq![0x1bu8, 0x5b, 0x32, 0x30, 0x31];
    assert(PASTE_END@ == seq![0x1bu8, 0x5b, 0x32, 0x30, 0x31, 0x7e]) by {
        lemma_delimiters(true);
    }
    lemma_terminator_ends_the_paste(v.detector, content);
    law_paste_content_is_inert(v, seq![], most);
    lemma_chunk_detector(chunk_start(v), most);
    assert(all.drop_last() =~= most);
    assert(all.last() == 0x7e);
}

/// Typing the introducer of a paste, byte for byte, enters one, whatever was
/// typed before it.
pub proof fn law_introducer_enters_a_paste(v: DetectorView)
    requires
        v.wf(),
        !v.in_paste,
    ensures
        after_bytes(v, seq![0x1bu8, 0x5b, 0x32, 0x30, 0x30, 0x7e]) == (DetectorView { in_paste: true, progress: 0 }),
{
    lemma_delimiters(false);
    law_delimiters_are_always_recognized(v);
}

/// A tick that was sent or dropped changes nothing; one that nobody receives ends
/// the ticks.
pub proof fn law_what_becomes_of_a_tick(v: InputView)
    ensures
        after_tick(v, SendOutcome::Sent) == v,
        after_tick(v, SendOutcome::Full) == v,
        after_tick(v, SendOutcome::Disconnected) == (InputView { ticking: false, ..v }),
{
}

/// What the shell reports about the end of a command or its working directory
/// does not touch the input.
pub proof fn law_other_reports_leave_the_input(v: InputView, exit_code: Option<i32>, cwd: Seq<char>)
    ensures
        after_event(v, EventView::CommandDone(exit_code)) == v,
        after_event(v, EventView::Cwd(cwd)) == v,
{
}

/// What a chunk calls for adds up over its bytes: once a byte has changed the line
/// or made the suggestions stale, no later byte takes that back, and none adds
/// what it would not call for alone.
pub proof fn law_calls_of_a_chunk_add_up(c: ChunkView, byte: u8)
    ensures
        ({
            let alone = chunk_byte(ChunkView { input: c.input, tick_needed: false, line_changed: false }, byte);
            let here = chunk_byte(c, byte);
            &&& here.input == alone.input
            &&& here.tick_needed == (c.tick_needed || alone.tick_needed)
            &&& here.line_changed == (c.line_changed || alone.line_changed)
        }),
{
}

/// A chunk is read byte by byte, from where the one before it ended.
pub proof fn law_chunk_is_read_byte_by_byte(c: ChunkView, chunk: Seq<u8>, byte: u8)
    ensures
        chunk_bytes(c, Seq::<u8>::empty()) == c,
        chunk_bytes(c, chunk.push(byte)) == chunk_byte(chunk_bytes(c, chunk), byte),
{
    assert(chunk.push(byte).drop_last() =~= chunk);
}

/// The byte that enters a paste touches nothing but the detector.
pub proof fn law_entering_a_paste_touches_nothing(c: ChunkView, byte: u8)
    requires
        event_of(c.input.detector, byte) is EnteredPaste,
    ensures
        chunk_byte(c, byte) == (ChunkView {
            input: InputView { detector: DetectorView { in_paste: true, progress: 0 }, ..c.input },
            ..c
        }),
{
}

} // verus!
