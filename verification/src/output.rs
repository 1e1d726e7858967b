//! Shell output: recognizing the OSC sequences that the shell integration emits.
//!
//! The parser is observational: it never modifies the byte stream.

use vstd::prelude::*;
use vstd::string::*;

use crate::input;
use crate::input::{InputModel, InputView};
use crate::line_buffer;
use crate::state::{SharedState, ShellState, StateView};
use crate::text;

verus! {

broadcast use vstd::seq_lib::group_seq_properties;

/// OSC sequences are framed by `ESC ]` ... (`BEL` | `ESC \`). The accumulator
/// is capped at this size so that a malformed stream cannot make it grow
/// without bound.
pub const MAX_OSC_PAYLOAD: usize = 4096;

/// What an OSC sequence successfully parsed from the shell output told
/// about the shell's lifecycle.
#[derive(Debug, Clone, PartialEq, Eq)]
pub enum OscEvent {
    /// `\e]133;A\e\\`: prompt is starting.
    Osc133PromptStart,
    /// `\e]133;B\e\\`: end-of-prompt / start-of-input.
    Osc133CommandInputStart,
    /// `\e]133;C\e\\`: command is running.
    Osc133CommandStart,
    /// `\e]133;D[;<exit>]\e\\`: command finished, optional exit code.
    Osc133CommandDone(Option<i32>),
    /// `\e]7;file://<host><path>\e\\`: cwd changed.
    Osc7Cwd(String),
}

/// What an [`OscEvent`] stands for.
pub enum EventView {
    PromptStart,
    CommandInputStart,
    CommandStart,
    CommandDone(Option<i32>),
    Cwd(Seq<char>),
}

impl View for OscEvent {
    type V = EventView;

    open spec fn view(&self) -> EventView {
        match *self {
            OscEvent::Osc133PromptStart => EventView::PromptStart,
            OscEvent::Osc133CommandInputStart => EventView::CommandInputStart,
            OscEvent::Osc133CommandStart => EventView::CommandStart,
            OscEvent::Osc133CommandDone(exit) => EventView::CommandDone(exit),
            OscEvent::Osc7Cwd(cwd) => EventView::Cwd(cwd@),
        }
    }
}

/// What an optional event stands for.
pub open spec fn opt_event(e: Option<OscEvent>) -> Option<EventView> {
    match e {
        Some(e) => Some(e@),
        None => None,
    }
}

/// What the bytes between the introducer and the terminator mean: a numeric
/// code, a semicolon and parameters.
pub open spec fn payload_event(buf: Seq<u8>) -> Option<EventView> {
    match text::first_index(buf, 0x3bu8, 0) {
        None => None,
        Some(sep) => {
            let code = buf.subrange(0, sep);
            let params = buf.subrange(sep + 1, buf.len() as int);
            if code == seq![0x31u8, 0x33, 0x33] {
                event_133(params)
            } else if code == seq![0x37u8] {
                event_7(params)
            } else {
                None
            }
        },
    }
}

/// The parameters of code 133: one of the letters A, B, C, alone; or D, alone
/// or with `;` and an exit code. An exit code that is no number is dropped, one
/// that is no text makes the sequence meaningless.
pub open spec fn event_133(params: Seq<u8>) -> Option<EventView> {
    if params == seq![0x41u8] {
        Some(EventView::PromptStart)
    } else if params == seq![0x42u8] {
        Some(EventView::CommandInputStart)
    } else if params == seq![0x43u8] {
        Some(EventView::CommandStart)
    } else if params == seq![0x44u8] {
        Some(EventView::CommandDone(None))
    } else if params.len() >= 2 && params[0] == 0x44 && params[1] == 0x3b {
        let code = params.subrange(2, params.len() as int);
        match text::decoded(code) {
            Some(_) => Some(EventView::CommandDone(text::i32_value(code))),
            None => None,
        }
    } else {
        None
    }
}

/// The parameters of code 7: a `file://` URL of which the path counts, from the
/// first slash behind the host on. Without a scheme or a slash, what is there.
pub open spec fn event_7(params: Seq<u8>) -> Option<EventView> {
    match text::decoded(params) {
        Some(url) => Some(EventView::Cwd(path_of(url))),
        None => None,
    }
}

/// The scheme that introduces a file URL.
pub open spec fn scheme() -> Seq<char> {
    seq!['f', 'i', 'l', 'e', ':', '/', '/']
}

/// The path of a file URL.
pub open spec fn path_of(url: Seq<char>) -> Seq<char> {
    let rest = if scheme().is_prefix_of(url) {
        url.skip(7)
    } else {
        url
    };
    from_first_slash(rest)
}

/// `s` from its first slash on, or all of it if it has none.
pub open spec fn from_first_slash(s: Seq<char>) -> Seq<char> {
    match text::first_index(s, '/', 0) {
        Some(i) => s.skip(i),
        None => s,
    }
}

#[derive(Debug, Clone, Copy, PartialEq, Eq, Structural)]
enum ParseState {
    /// No active parse; scan for `ESC`.
    Idle,
    /// Saw `ESC`; the next byte determines whether this is OSC, CSI,
    /// or something else.
    SawEsc,
    /// Inside an OSC sequence body, collecting bytes into the buffer
    /// until `BEL` or `ESC \`.
    InOsc,
    /// Inside OSC and just saw `ESC`; if next byte is `\` this is the
    /// terminator.
    InOscSawEsc,
}

/// Streaming OSC parser. Feed bytes one at a time via [`OscParser::observe`];
/// the method returns an event when a complete `OSC ... terminator` framing
/// has been seen. Garbage between sequences is silently skipped.
#[derive(Debug)]
pub struct OscParser {
    state: ParseState,
    /// Bytes accumulated inside the current OSC (excluding the
    /// `ESC ]` introducer and any terminator).
    buf: Vec<u8>,
}

/// How far a parser is into a sequence.
pub enum Phase {
    Idle,
    SawEsc,
    InOsc,
    InOscSawEsc,
}

/// What an [`OscParser`] stands for.
pub struct ParserView {
    pub phase: Phase,
    pub buf: Seq<u8>,
}

/// A parser that has read nothing yet.
pub open spec fn fresh_parser() -> ParserView {
    ParserView { phase: Phase::Idle, buf: seq![] }
}

impl ParserView {
    /// The accumulator is within its cap.
    pub open spec fn wf(self) -> bool {
        self.buf.len() <= MAX_OSC_PAYLOAD
    }

    /// The body grows by `byte`, unless it is full: then it is given up.
    pub open spec fn grown(self, byte: u8) -> ParserView {
        if self.buf.len() >= MAX_OSC_PAYLOAD {
            fresh_parser()
        } else {
            ParserView { buf: self.buf.push(byte), ..self }
        }
    }

    /// The same body, in another phase.
    pub open spec fn to(self, phase: Phase) -> ParserView {
        ParserView { phase, ..self }
    }

    /// Whether `byte` terminates the sequence being read.
    pub open spec fn finishes(self, byte: u8) -> bool {
        ||| self.phase is InOsc && byte == 0x07
        ||| self.phase is InOscSawEsc && byte == 0x5c
    }
}

/// The parser after one more byte.
pub open spec fn after_byte(v: ParserView, byte: u8) -> ParserView {
    if v.finishes(byte) {
        fresh_parser()
    } else {
        match v.phase {
            Phase::Idle => if byte == 0x1b {
                v.to(Phase::SawEsc)
            } else {
                v
            },
            Phase::SawEsc => if byte == 0x5d {
                ParserView { phase: Phase::InOsc, buf: seq![] }
            } else if byte == 0x1b {
                v
            } else {
                v.to(Phase::Idle)
            },
            Phase::InOsc => if byte == 0x1b {
                v.to(Phase::InOscSawEsc)
            } else {
                v.grown(byte)
            },
            // The ESC before this byte was part of the body. A body that has no
            // room for both is given up.
            Phase::InOscSawEsc => if byte == 0x1b {
                v.grown(0x1b)
            } else if v.buf.len() + 2 > MAX_OSC_PAYLOAD {
                fresh_parser()
            } else {
                ParserView { phase: Phase::InOsc, buf: v.buf.push(0x1b).push(byte) }
            },
        }
    }
}

/// What the parser reports at `byte`.
pub open spec fn event_of(v: ParserView, byte: u8) -> Option<EventView> {
    if v.finishes(byte) {
        payload_event(v.buf)
    } else {
        None
    }
}

/// The parser after the bytes `input`, one by one.
pub open spec fn after_bytes(v: ParserView, input: Seq<u8>) -> ParserView
    decreases input.len(),
{
    if input.len() == 0 {
        v
    } else {
        after_byte(after_bytes(v, input.drop_last()), input.last())
    }
}

/// The events that the parser reports over the bytes `input`.
pub open spec fn events_of(v: ParserView, input: Seq<u8>) -> Seq<EventView>
    decreases input.len(),
{
    if input.len() == 0 {
        seq![]
    } else {
        let before = events_of(v, input.drop_last());
        match event_of(after_bytes(v, input.drop_last()), input.last()) {
            Some(e) => before.push(e),
            None => before,
        }
    }
}

impl OscParser {
    closed spec fn phase_view(state: ParseState) -> Phase {
        match state {
            ParseState::Idle => Phase::Idle,
            ParseState::SawEsc => Phase::SawEsc,
            ParseState::InOsc => Phase::InOsc,
            ParseState::InOscSawEsc => Phase::InOscSawEsc,
        }
    }

    /// The accumulator is within its cap.
    pub open spec fn wf(&self) -> bool {
        self@.wf()
    }
}

impl View for OscParser {
    type V = ParserView;

    closed spec fn view(&self) -> ParserView {
        ParserView { phase: Self::phase_view(self.state), buf: self.buf@ }
    }
}

impl Default for OscParser {
    fn default() -> (r: Self)
        ensures
            r.wf(),
            r@ == fresh_parser(),
    {
        Self::new()
    }
}

impl OscParser {
    pub fn new() -> (r: Self)
        ensures
            r.wf(),
            r@ == fresh_parser(),
    {
        Self { state: ParseState::Idle, buf: Vec::with_capacity(64) }
    }

    /// Feed one byte of shell output.
    pub fn observe(&mut self, byte: u8) -> (r: Option<OscEvent>)
        requires
            old(self).wf(),
        ensures
            final(self).wf(),
            final(self)@ == after_byte(old(self)@, byte),
            opt_event(r) == event_of(old(self)@, byte),
    {
        match self.state {
            ParseState::Idle => {
                if byte == 0x1b {
                    self.state = ParseState::SawEsc;
                }
                None
            },
            ParseState::SawEsc => {
                if byte == 0x5d {
                    self.state = ParseState::InOsc;
                    self.buf.clear();
                } else if byte != 0x1b {
                    // Some other escape sequence.
                    self.state = ParseState::Idle;
                }
                None
            },
            ParseState::InOsc => match byte {
                0x07 => self.finish(),
                0x1b => {
                    self.state = ParseState::InOscSawEsc;
                    None
                },
                _ => {
                    self.push(byte);
                    None
                },
            },
            ParseState::InOscSawEsc => match byte {
                0x5c => self.finish(),
                0x1b => {
                    // The first ESC was part of the body; this one may begin
                    // the terminator.
                    self.push(0x1b);
                    None
                },
                _ => {
                    self.push(0x1b);
                    if matches!(self.state, ParseState::InOscSawEsc) {
                        self.push(byte);
                    }
                    if matches!(self.state, ParseState::InOscSawEsc) {
                        self.state = ParseState::InOsc;
                    }
                    None
                },
            },
        }
    }

    fn push(&mut self, byte: u8)
        requires
            old(self).wf(),
        ensures
            final(self).wf(),
            final(self)@ == old(self)@.grown(byte),
    {
        if self.buf.len() >= MAX_OSC_PAYLOAD {
            self.buf.clear();
            self.state = ParseState::Idle;
            return;
        }
        self.buf.push(byte);
    }

    fn finish(&mut self) -> (r: Option<OscEvent>)
        ensures
            final(self).wf(),
            final(self)@ == fresh_parser(),
            opt_event(r) == payload_event(old(self)@.buf),
    {
        let event = parse_osc_payload(self.buf.as_slice());
        self.buf.clear();
        self.state = ParseState::Idle;
        event
    }
}

/// Parse the bytes between `ESC ]` and the terminator. Format is
/// `<code> ; <params>`.
fn parse_osc_payload(buf: &[u8]) -> (r: Option<OscEvent>)
    ensures
        opt_event(r) == payload_event(buf@),
{
    let mut sep: usize = 0;
    while sep < buf.len() && buf[sep] != 0x3b
        invariant
            sep <= buf@.len(),
            text::first_index(buf@, 0x3bu8, 0) == text::first_index(buf@, 0x3bu8, sep as int),
        decreases buf@.len() - sep,
    {
        sep += 1;
    }
    if sep == buf.len() {
        return None;
    }
    let ghost code = buf@.subrange(0, sep as int);
    let params = &buf[sep + 1..buf.len()];
    if sep == 3 && buf[0] == 0x31 && buf[1] == 0x33 && buf[2] == 0x33 {
        assert(code =~= seq![0x31u8, 0x33, 0x33]);
        return parse_osc_133(params);
    }
    if sep == 1 && buf[0] == 0x37 {
        assert(code =~= seq![0x37u8]);
        assert(code != seq![0x31u8, 0x33, 0x33]);
        return parse_osc_7(params);
    }
    proof {
        if code == seq![0x31u8, 0x33, 0x33] {
            assert(sep == seq![0x31u8, 0x33, 0x33].len());
            assert(buf@[0] == code[0] && buf@[1] == code[1] && buf@[2] == code[2]);
        }
        if code == seq![0x37u8] {
            assert(sep == seq![0x37u8].len());
            assert(buf@[0] == code[0]);
        }
    }
    None
}

fn parse_osc_133(params: &[u8]) -> (r: Option<OscEvent>)
    ensures
        opt_event(r) == event_133(params@),
{
    if params.len() == 0 {
        return None;
    }
    if params.len() == 1 {
        assert(params@ =~= seq![params@[0]]);
        return match params[0] {
            0x41 => Some(OscEvent::Osc133PromptStart),
            0x42 => Some(OscEvent::Osc133CommandInputStart),
            0x43 => Some(OscEvent::Osc133CommandStart),
            0x44 => Some(OscEvent::Osc133CommandDone(None)),
            _ => None,
        };
    }
    if params[0] != 0x44 || params[1] != 0x3b {
        return None;
    }
    let code = &params[2..params.len()];
    match text::decode(code) {
        Some(_) => Some(OscEvent::Osc133CommandDone(text::parse_i32(code))),
        None => None,
    }
}

fn parse_osc_7(params: &[u8]) -> (r: Option<OscEvent>)
    ensures
        opt_event(r) == event_7(params@),
{
    match text::decode(params) {
        None => None,
        Some(url) => {
            proof {
                reveal_strlit("file://");
                assert("file://"@ =~= scheme());
            }
            let len = url.unicode_len();
            let rest = if text::starts_with(url, "file://") {
                url.substring_char(7, len)
            } else {
                url
            };
            let path = slash_path(rest);
            Some(OscEvent::Osc7Cwd(path))
        },
    }
}

fn slash_path(s: &str) -> (r: String)
    ensures
        r@ == from_first_slash(s@),
{
    let len = s.unicode_len();
    let mut chars = s.chars();
    let mut i: usize = 0;
    while i < len
        invariant
            i <= len,
            len == s@.len(),
            vstd::std_specs::iter::IteratorSpec::remaining(&chars) == s@.skip(i as int),
            text::first_index(s@, '/', 0) == text::first_index(s@, '/', i as int),
        decreases len - i,
    {
        match chars.next() {
            Some(c) => {
                if c == '/' {
                    let tail = s.substring_char(i, len);
                    assert(tail@ =~= s@.skip(i as int));
                    return tail.to_owned();
                }
            },
            None => {},
        }
        assert(s@.skip(i as int).drop_first() =~= s@.skip(i + 1));
        i += 1;
    }
    s.to_owned()
}

/// The shell state after an event.
pub open spec fn applied(state: StateView, event: EventView) -> StateView {
    match event {
        EventView::PromptStart => state.prompt_started(),
        EventView::CommandInputStart => state.input_started(),
        EventView::CommandStart => state.command_started(),
        EventView::CommandDone(exit) => state.command_done(exit),
        EventView::Cwd(cwd) => state.moved_to(cwd),
    }
}

/// The shell state and the input model after an event. An event that starts a
/// new line is passed on to the line that the state holds.
pub open spec fn reported(state: StateView, input: InputView, event: EventView) -> (StateView, InputView) {
    let shell = applied(state, event);
    (
        if input::resets_line(event) {
            StateView { line: seq![], cursor: 0, ..shell }
        } else {
            shell
        },
        input::after_event(input, event),
    )
}

/// The shell state and the input model after the events `events`, one by one.
pub open spec fn reported_all(state: StateView, input: InputView, events: Seq<EventView>) -> (StateView, InputView)
    decreases events.len(),
{
    if events.len() == 0 {
        (state, input)
    } else {
        let (s, i) = reported_all(state, input, events.drop_last());
        reported(s, i, events.last())
    }
}

/// Update the shell state with what an OSC sequence told.
pub fn apply_event(state: &mut SharedState, event: OscEvent)
    ensures
        final(state)@ == applied(old(state)@, event@),
{
    match event {
        OscEvent::Osc133PromptStart => state.on_prompt_start(),
        OscEvent::Osc133CommandInputStart => state.on_command_input_marker(),
        OscEvent::Osc133CommandStart => state.on_command_start(),
        OscEvent::Osc133CommandDone(exit) => state.on_command_done(exit),
        OscEvent::Osc7Cwd(cwd) => state.on_cwd(cwd.as_str()),
    }
}

/// Pass an event on to the shell state and to the model of what is typed.
pub fn report_event(state: &mut SharedState, input: &mut InputModel, event: OscEvent)
    requires
        old(input).wf(),
    ensures
        final(input).wf(),
        (final(state)@, final(input)@) == reported(old(state)@, old(input)@, event@),
{
    let line_reset = input.on_shell_event(&event);
    apply_event(state, event);
    if line_reset {
        state.on_line_update(String::new(), 0);
        assert(state@.line =~= seq![]);
    }
}

/// Feed a chunk of shell output to `parser`, and every event it reports to
/// `state` and `input`.
pub fn observe_chunk(parser: &mut OscParser, state: &mut SharedState, input: &mut InputModel, chunk: &[u8])
    requires
        old(parser).wf(),
        old(input).wf(),
    ensures
        final(parser).wf(),
        final(input).wf(),
        final(parser)@ == after_bytes(old(parser)@, chunk@),
        (final(state)@, final(input)@) == reported_all(
            old(state)@,
            old(input)@,
            events_of(old(parser)@, chunk@),
        ),
{
    let mut i: usize = 0;
    let ghost start = parser@;
    let ghost first = state@;
    let ghost typed = input@;
    assert(chunk@.subrange(0, 0) =~= seq![]);
    while i < chunk.len()
        invariant
            i <= chunk@.len(),
            parser.wf(),
            input.wf(),
            parser@ == after_bytes(start, chunk@.subrange(0, i as int)),
            (state@, input@) == reported_all(first, typed, events_of(start, chunk@.subrange(0, i as int))),
        decreases chunk@.len() - i,
    {
        let ghost seen = chunk@.subrange(0, i as int);
        let ghost more = chunk@.subrange(0, i + 1);
        let ghost before = events_of(start, seen);
        assert(more.drop_last() =~= seen);
        assert(more.last() == chunk@[i as int]);
        match parser.observe(chunk[i]) {
            Some(event) => {
                assert(before.push(event@).drop_last() =~= before);
                report_event(state, input, event);
            },
            None => {},
        }
        i += 1;
    }
    assert(chunk@.subrange(0, chunk@.len() as int) =~= chunk@);
}

/// However malformed the stream, the accumulator stays within its cap.
pub proof fn law_buffer_is_bounded(v: ParserView, input: Seq<u8>)
    requires
        v.wf(),
    ensures
        after_bytes(v, input).wf(),
    decreases input.len(),
{
    if input.len() > 0 {
        law_buffer_is_bounded(v, input.drop_last());
    }
}

/// How the output is split into reads makes no difference.
pub proof fn law_reads_may_be_split(v: ParserView, a: Seq<u8>, b: Seq<u8>)
    ensures
        after_bytes(v, a + b) == after_bytes(after_bytes(v, a), b),
        events_of(v, a + b) == events_of(v, a) + events_of(after_bytes(v, a), b),
    decreases b.len(),
{
    if b.len() == 0 {
        assert(a + b =~= a);
        assert(events_of(v, a) + seq![] =~= events_of(v, a));
    } else {
        assert((a + b).drop_last() =~= a + b.drop_last());
        law_reads_may_be_split(v, a, b.drop_last());
        let x = events_of(v, a);
        let y = events_of(after_bytes(v, a), b.drop_last());
        assert((a + b).last() == b.last());
        match event_of(after_bytes(after_bytes(v, a), b.drop_last()), b.last()) {
            Some(e) => assert((x + y).push(e) =~= x + y.push(e)),
            None => {},
        }
    }
}

/// Output in which nowhere an ESC is followed by `]`.
pub open spec fn is_noise(s: Seq<u8>) -> bool {
    forall|i: int| 0 < i < s.len() && #[trigger] s[i] == 0x5d ==> s[i - 1] != 0x1b
}

/// A body of an OSC sequence that contains no terminator: no `ESC \`, and BEL
/// only where an ESC before it makes it part of the body.
pub open spec fn is_body(s: Seq<u8>) -> bool {
    &&& forall|i: int| 0 < i < s.len() && #[trigger] s[i] == 0x5c ==> s[i - 1] != 0x1b
    &&& forall|i: int| 0 <= i < s.len() && #[trigger] s[i] == 0x07 ==> i > 0 && s[i - 1] == 0x1b
}

/// Whether `s` ends with an ESC.
pub open spec fn ends_with_esc(s: Seq<u8>) -> bool {
    s.len() > 0 && s.last() == 0x1b
}

/// The introducer of an OSC sequence.
pub open spec fn osc_introducer() -> Seq<u8> {
    seq![0x1b, 0x5d]
}

/// The string terminator `ESC \`.
pub open spec fn string_terminator() -> Seq<u8> {
    seq![0x1b, 0x5c]
}

/// The terminator `BEL`.
pub open spec fn bell() -> Seq<u8> {
    seq![0x07]
}

/// Output without an introducer is skipped: it reports nothing and leaves the
/// parser outside any sequence, waiting for the byte behind a last ESC.
pub proof fn law_noise_is_ignored(noise: Seq<u8>, v: ParserView)
    requires
        v.phase is Idle,
        is_noise(noise),
    ensures
        events_of(v, noise) == Seq::<EventView>::empty(),
        after_bytes(v, noise) == v.to(if ends_with_esc(noise) {
            Phase::SawEsc
        } else {
            Phase::Idle
        }),
    decreases noise.len(),
{
    if noise.len() > 0 {
        let most = noise.drop_last();
        assert forall|i: int| 0 < i < most.len() && #[trigger] most[i] == 0x5d implies most[i - 1] != 0x1b by {
            assert(noise[i] == 0x5d);
        }
        law_noise_is_ignored(most, v);
        if noise.last() == 0x5d && most.len() > 0 {
            assert(noise[noise.len() - 1] == 0x5d);
            assert(most.last() == noise[noise.len() - 2]);
        }
    }
}

proof fn lemma_body_accumulates(body: Seq<u8>)
    requires
        is_body(body),
        body.len() <= MAX_OSC_PAYLOAD,
    ensures
        ({
            let v = ParserView { phase: Phase::InOsc, buf: seq![] };
            &&& events_of(v, body) == Seq::<EventView>::empty()
            &&& after_bytes(v, body) == if ends_with_esc(body) {
                ParserView { phase: Phase::InOscSawEsc, buf: body.drop_last() }
            } else {
                ParserView { phase: Phase::InOsc, buf: body }
            }
        }),
    decreases body.len(),
{
    let v = ParserView { phase: Phase::InOsc, buf: seq![] };
    if body.len() == 0 {
        assert(body =~= seq![]);
    } else {
        let most = body.drop_last();
        assert forall|i: int| 0 < i < most.len() && #[trigger] most[i] == 0x5c implies most[i - 1] != 0x1b by {
            assert(body[i] == 0x5c);
        }
        assert forall|i: int| 0 <= i < most.len() && #[trigger] most[i] == 0x07 implies i > 0 && most[i - 1]
            == 0x1b by {
            assert(body[i] == 0x07);
        }
        lemma_body_accumulates(most);
        let last = body.len() - 1;
        let b = body[last];
        if b == 0x5c && last > 0 {
            assert(body[last - 1] != 0x1b);
        }
        if ends_with_esc(most) {
            assert(most.last() == body[last - 1]);
            assert(most.drop_last().push(0x1b) =~= most);
            assert(most.push(b) =~= body);
        } else {
            if b == 0x07 {
                assert(last > 0 && body[last - 1] == 0x1b);
                assert(most.last() == body[last - 1]);
            }
            assert(most.push(b) =~= body);
        }
    }
}

/// An OSC sequence is recognized wherever it stands: after any noise, the
/// introducer, a body of at most the capped length and the terminator `ESC \`
/// report exactly what the body means, and leave the parser fresh.
pub proof fn law_framed_sequence_is_recognized(noise: Seq<u8>, body: Seq<u8>)
    requires
        is_noise(noise),
        is_body(body),
        body.len() <= 4096,
    ensures
        ({
            let stream = noise + osc_introducer() + body + string_terminator();
            &&& after_bytes(fresh_parser(), stream) == fresh_parser()
            &&& events_of(fresh_parser(), stream) == match payload_event(body) {
                Some(e) => seq![e],
                None => seq![],
            }
        }),
{
    let v = fresh_parser();
    lemma_opened(noise, body);
    let opened = noise + osc_introducer() + body;
    let w = after_bytes(v, opened);
    law_reads_may_be_split(v, opened, string_terminator());
    let st = string_terminator();
    assert(st.drop_last() =~= seq![0x1bu8]);
    assert(seq![0x1bu8].drop_last() =~= seq![]);
    reveal_with_fuel(after_bytes, 3);
    reveal_with_fuel(events_of, 3);
    let x = after_byte(w, 0x1b);
    if ends_with_esc(body) {
        assert(body.drop_last().push(0x1b) =~= body);
    }
    assert(x == (ParserView { phase: Phase::InOscSawEsc, buf: body }));
    assert(after_bytes(w, st) == fresh_parser());
    assert(events_of(w, seq![0x1bu8]) =~= seq![]);
    match payload_event(body) {
        Some(e) => assert(events_of(w, st) =~= seq![e]),
        None => assert(events_of(w, st) =~= seq![]),
    }
}

/// The terminator BEL serves as well, after a body that does not end with ESC.
pub proof fn law_bell_terminates_too(noise: Seq<u8>, body: Seq<u8>)
    requires
        is_noise(noise),
        is_body(body),
        body.len() <= 4096,
        !ends_with_esc(body),
    ensures
        ({
            let stream = noise + osc_introducer() + body + bell();
            &&& after_bytes(fresh_parser(), stream) == fresh_parser()
            &&& events_of(fresh_parser(), stream) == match payload_event(body) {
                Some(e) => seq![e],
                None => seq![],
            }
        }),
{
    let v = fresh_parser();
    lemma_opened(noise, body);
    let opened = noise + osc_introducer() + body;
    let w = after_bytes(v, opened);
    law_reads_may_be_split(v, opened, bell());
    assert(bell().drop_last() =~= seq![]);
    reveal_with_fuel(after_bytes, 2);
    reveal_with_fuel(events_of, 2);
    match payload_event(body) {
        Some(e) => assert(events_of(w, bell()) =~= seq![e]),
        None => assert(events_of(w, bell()) =~= seq![]),
    }
}

proof fn lemma_opened(noise: Seq<u8>, body: Seq<u8>)
    requires
        is_noise(noise),
        is_body(body),
        body.len() <= MAX_OSC_PAYLOAD,
    ensures
        ({
            let opened = noise + osc_introducer() + body;
            &&& events_of(fresh_parser(), opened) == Seq::<EventView>::empty()
            &&& after_bytes(fresh_parser(), opened) == if ends_with_esc(body) {
                ParserView { phase: Phase::InOscSawEsc, buf: body.drop_last() }
            } else {
                ParserView { phase: Phase::InOsc, buf: body }
            }
        }),
{
    let v = fresh_parser();
    let intro = osc_introducer();
    law_noise_is_ignored(noise, v);
    let u = after_bytes(v, noise);
    law_reads_may_be_split(v, noise, intro);
    assert(intro.drop_last() =~= seq![0x1bu8]);
    assert(seq![0x1bu8].drop_last() =~= seq![]);
    reveal_with_fuel(after_bytes, 3);
    reveal_with_fuel(events_of, 3);
    assert(after_bytes(u, intro) == (ParserView { phase: Phase::InOsc, buf: seq![] }));
    assert(events_of(u, intro) =~= seq![]);
    lemma_body_accumulates(body);
    law_reads_may_be_split(v, noise + intro, body);
}

/// How many bytes of a body that outgrows the cap are read before it is given
/// up: one too many, and one more if that one is an ESC, of which only the next
/// byte shows that it belongs to the body.
pub open spec fn given_up_after(body: Seq<u8>) -> int {
    if body[MAX_OSC_PAYLOAD as int] == 0x1b {
        MAX_OSC_PAYLOAD + 2
    } else {
        MAX_OSC_PAYLOAD + 1
    }
}

/// A body without a terminator that outgrows the cap is given up without a
/// report, and the parser is fresh again: what follows, the tail of the body
/// too, is read as if nothing had come before it.
pub proof fn law_recovers_from_oversize_body(body: Seq<u8>, rest: Seq<u8>)
    requires
        is_body(body),
        body.len() > MAX_OSC_PAYLOAD,
        body.len() >= given_up_after(body),
    ensures
        ({
            let stream = osc_introducer() + body + rest;
            let tail = body.skip(given_up_after(body)) + rest;
            &&& after_bytes(fresh_parser(), stream) == after_bytes(fresh_parser(), tail)
            &&& events_of(fresh_parser(), stream) == events_of(fresh_parser(), tail)
        }),
{
    let v = fresh_parser();
    let n = given_up_after(body);
    let most = body.take(MAX_OSC_PAYLOAD as int);
    let none: Seq<u8> = seq![];
    assert(none + osc_introducer() + most =~= osc_introducer() + most);
    lemma_body_prefix(body, MAX_OSC_PAYLOAD as int);
    lemma_opened(none, most);
    let opened = osc_introducer() + most;
    let w = after_bytes(v, opened);
    let last = body[MAX_OSC_PAYLOAD as int];
    let over = body.subrange(MAX_OSC_PAYLOAD as int, n);
    if last == 0x5c {
        assert(body[MAX_OSC_PAYLOAD - 1] != 0x1b);
    }
    if last == 0x07 {
        assert(body[MAX_OSC_PAYLOAD - 1] == 0x1b);
    }
    assert(most.last() == body[MAX_OSC_PAYLOAD - 1]);
    reveal_with_fuel(after_bytes, 3);
    reveal_with_fuel(events_of, 3);
    if last == 0x1b {
        let next = body[MAX_OSC_PAYLOAD + 1];
        assert(next != 0x5c);
        assert(over =~= seq![0x1bu8, next]);
        assert(over.drop_last() =~= seq![0x1bu8]);
        assert(seq![0x1bu8].drop_last() =~= none);
        assert(over.last() == next);
    } else {
        assert(over =~= seq![last]);
        assert(over.drop_last() =~= none);
        assert(over.last() == last);
    }
    assert(after_bytes(w, over) == v);
    assert(events_of(w, over) =~= Seq::<EventView>::empty());
    law_reads_may_be_split(v, opened, over);
    let full = opened + over;
    let tail = body.skip(n) + rest;
    assert(osc_introducer() + body + rest =~= full + tail);
    law_reads_may_be_split(v, full, tail);
    assert(Seq::<EventView>::empty() + events_of(v, tail) =~= events_of(v, tail));
}

proof fn lemma_body_prefix(body: Seq<u8>, n: int)
    requires
        is_body(body),
        0 <= n <= body.len(),
    ensures
        is_body(body.take(n)),
{
    let most = body.take(n);
    assert forall|i: int| 0 < i < most.len() && #[trigger] most[i] == 0x5c implies most[i - 1] != 0x1b by {
        assert(body[i] == 0x5c);
    }
    assert forall|i: int| 0 <= i < most.len() && #[trigger] most[i] == 0x07 implies i > 0 && most[i - 1] == 0x1b by {
        assert(body[i] == 0x07);
    }
}

/// Whether an introducer stands at `at` in `input`.
pub open spec fn introduced_at(input: Seq<u8>, at: int) -> bool {
    0 <= at && at + 2 <= input.len() && input[at] == 0x1b && input[at + 1] == 0x5d
}

/// Whether what stands in `input` behind the introducer at `at` is `body`.
pub open spec fn opened_at(input: Seq<u8>, at: int, body: Seq<u8>) -> bool {
    introduced_at(input, at) && input.skip(at + 2) == body && is_body(body)
}

proof fn lemma_opened_at_grows(input: Seq<u8>, at: int, body: Seq<u8>, byte: u8)
    requires
        opened_at(input, at, body),
        byte == 0x5c ==> !ends_with_esc(body),
        byte == 0x07 ==> ends_with_esc(body),
    ensures
        opened_at(input.push(byte), at, body.push(byte)),
{
    let more = body.push(byte);
    assert(input.push(byte).skip(at + 2) =~= more);
    assert forall|i: int| 0 < i < more.len() && #[trigger] more[i] == 0x5c implies more[i - 1] != 0x1b by {
        if i < body.len() {
            assert(body[i] == 0x5c);
        }
    }
    assert forall|i: int| 0 <= i < more.len() && #[trigger] more[i] == 0x07 implies i > 0 && more[i - 1] == 0x1b by {
        if i < body.len() {
            assert(body[i] == 0x07);
        }
    }
}

/// Inside a sequence the parser holds exactly what stands behind an introducer.
proof fn lemma_holds_the_body(input: Seq<u8>) -> (at: int)
    ensures
        ({
            let v = after_bytes(fresh_parser(), input);
            &&& v.wf()
            &&& v.phase is SawEsc ==> ends_with_esc(input)
            &&& v.phase is InOsc ==> opened_at(input, at, v.buf) && !ends_with_esc(v.buf)
            &&& v.phase is InOscSawEsc ==> opened_at(input, at, v.buf.push(0x1b))
        }),
    decreases input.len(),
{
    if input.len() == 0 {
        0
    } else {
        let most = input.drop_last();
        let byte = input.last();
        let at = lemma_holds_the_body(most);
        let v = after_bytes(fresh_parser(), most);
        assert(most.push(byte) =~= input);
        match v.phase {
            Phase::Idle => at,
            Phase::SawEsc => {
                let here = most.len() - 1;
                if byte == 0x5d {
                    assert(input[here] == most.last());
                    assert(input.skip(here + 2) =~= Seq::<u8>::empty());
                }
                here
            },
            Phase::InOsc => {
                if byte != 0x07 {
                    lemma_opened_at_grows(most, at, v.buf, byte);
                }
                at
            },
            Phase::InOscSawEsc => {
                if byte != 0x5c {
                    lemma_opened_at_grows(most, at, v.buf.push(0x1b), byte);
                }
                at
            },
        }
    }
}

/// An event comes only for a complete sequence: where a byte brings one, it ends
/// a stretch of the output that is an introducer, a body within the cap that
/// means just this event, and a terminator.
pub proof fn law_events_come_from_complete_sequences(input: Seq<u8>, byte: u8)
    requires
        event_of(after_bytes(fresh_parser(), input), byte) is Some,
    ensures
        exists|at: int, body: Seq<u8>|
            {
                &&& #[trigger] introduced_at(input, at)
                &&& #[trigger] is_body(body)
                &&& body.len() <= MAX_OSC_PAYLOAD
                &&& payload_event(body) == event_of(after_bytes(fresh_parser(), input), byte)
                &&& input.push(byte).skip(at + 2) == body + string_terminator() || input.push(byte).skip(at + 2)
                    == body + bell()
            },
{
    let v = after_bytes(fresh_parser(), input);
    let at = lemma_holds_the_body(input);
    let body = v.buf;
    if v.phase is InOsc {
        assert(input.push(byte).skip(at + 2) =~= body + bell());
    } else {
        let held = body.push(0x1b);
        lemma_body_prefix(held, body.len() as int);
        assert(held.take(body.len() as int) =~= body);
        assert(input.push(byte).skip(at + 2) =~= held.push(byte));
        assert(held.push(byte) =~= body + string_terminator());
    }
    assert(introduced_at(input, at) && is_body(body));
}

/// Outside a sequence nothing is accumulated.
proof fn lemma_nothing_kept_outside(input: Seq<u8>)
    ensures
        ({
            let v = after_bytes(fresh_parser(), input);
            v.phase is Idle || v.phase is SawEsc ==> v.buf == Seq::<u8>::empty()
        }),
    decreases input.len(),
{
    if input.len() > 0 {
        lemma_nothing_kept_outside(input.drop_last());
    }
}

/// Whatever came before, the terminator `ESC \` leaves the parser fresh: an
/// oversize, unfinished or otherwise malformed sequence never costs more than
/// what stands before the next terminator.
pub proof fn law_terminator_resynchronizes(garbage: Seq<u8>)
    ensures
        after_bytes(fresh_parser(), garbage + string_terminator()) == fresh_parser(),
{
    let v = fresh_parser();
    let st = string_terminator();
    let w = after_bytes(v, garbage);
    lemma_nothing_kept_outside(garbage + st);
    law_reads_may_be_split(v, garbage, st);
    assert(st.drop_last() =~= seq![0x1bu8]);
    assert(seq![0x1bu8].drop_last() =~= seq![]);
    reveal_with_fuel(after_bytes, 3);
    assert(after_bytes(w, st).phase is Idle);
}

/// After any output that ends with a terminator, a well-formed sequence is
/// recognized.
pub proof fn law_sequence_after_garbage_is_recognized(garbage: Seq<u8>, body: Seq<u8>)
    requires
        is_body(body),
        body.len() <= MAX_OSC_PAYLOAD,
    ensures
        ({
            let before = garbage + string_terminator();
            let framed = osc_introducer() + body + string_terminator();
            events_of(fresh_parser(), before + framed) == events_of(fresh_parser(), before) + match payload_event(
                body,
            ) {
                Some(e) => seq![e],
                None => seq![],
            }
        }),
{
    let before = garbage + string_terminator();
    let framed = osc_introducer() + body + string_terminator();
    let none: Seq<u8> = seq![];
    law_terminator_resynchronizes(garbage);
    law_reads_may_be_split(fresh_parser(), before, framed);
    law_framed_sequence_is_recognized(none, body);
    assert(none + osc_introducer() + body + string_terminator() =~= framed);
}

/// The bytes of `7;`.
pub open spec fn code_7() -> Seq<u8> {
    seq![0x37, 0x3b]
}

/// The bytes of `file://`.
pub open spec fn scheme_bytes() -> Seq<u8> {
    seq![0x66, 0x69, 0x6c, 0x65, 0x3a, 0x2f, 0x2f]
}

proof fn lemma_scheme()
    ensures
        vstd::utf8::encode_utf8(seq!['f', 'i', 'l', 'e', ':', '/', '/']) == scheme_bytes(),
{
    let s = seq!['f', 'i', 'l', 'e', ':', '/', '/'];
    assert(vstd::utf8::is_ascii_chars(s));
    vstd::utf8::is_ascii_chars_encode_utf8(s);
    assert forall|i: int| 0 <= i < 7 implies vstd::utf8::encode_utf8(s)[i] == scheme_bytes()[i] by {
        assert(s[i] as u8 == vstd::utf8::encode_utf8(s)[i]);
    }
    assert(vstd::utf8::encode_utf8(s) =~= scheme_bytes());
}

proof fn lemma_report_7(params: Seq<u8>)
    ensures
        payload_event(code_7() + params) == event_7(params),
{
    let body = code_7() + params;
    reveal_with_fuel(text::first_index, 3);
    assert(body[0] == 0x37 && body[1] == 0x3b);
    assert(text::first_index(body, 0x3bu8, 0) == Some(1int));
    assert(body.subrange(0, 1) =~= seq![0x37u8]);
    assert(body.subrange(0, 1) != seq![0x31u8, 0x33, 0x33]);
    assert(body.subrange(2, body.len() as int) =~= params);
}

proof fn lemma_first_slash(host: Seq<char>, path: Seq<char>)
    requires
        !host.contains('/'),
        path.len() > 0 ==> path[0] == '/',
    ensures
        from_first_slash(host + path) == (if path.len() > 0 {
            path
        } else {
            host
        }),
{
    let s = host + path;
    text::lemma_first_index(s, '/', 0);
    assert forall|i: int| 0 <= i < host.len() implies s[i] != '/' by {
        assert(host.contains(host[i]));
    }
    if path.len() > 0 {
        assert(s[host.len() as int] == '/');
        assert(s.skip(host.len() as int) =~= path);
    } else {
        assert(s =~= host);
    }
}

/// A report of the working directory as a URL means the path of the URL, whatever
/// host stands before it: the path begins at the first slash behind `file://`.
pub proof fn law_file_url_means_its_path(host: Seq<char>, path: Seq<char>)
    requires
        !host.contains('/'),
        path.len() > 0,
        path[0] == '/',
    ensures
        payload_event(
            seq![0x37u8, 0x3b, 0x66, 0x69, 0x6c, 0x65, 0x3a, 0x2f, 0x2f] + vstd::utf8::encode_utf8(host)
                + vstd::utf8::encode_utf8(path),
        ) == Some(EventView::Cwd(path)),
{
    let url = seq!['f', 'i', 'l', 'e', ':', '/', '/'] + (host + path);
    let bytes = vstd::utf8::encode_utf8(host) + vstd::utf8::encode_utf8(path);
    lemma_scheme();
    text::lemma_encoding_of_joined(host, path);
    text::lemma_encoding_of_joined(seq!['f', 'i', 'l', 'e', ':', '/', '/'], host + path);
    assert(vstd::utf8::encode_utf8(url) =~= scheme_bytes() + bytes);
    text::law_decoding_inverts_encoding(vstd::utf8::encode_utf8(url), url);
    lemma_report_7(scheme_bytes() + bytes);
    assert(code_7() + (scheme_bytes() + bytes) =~= seq![0x37u8, 0x3b, 0x66, 0x69, 0x6c, 0x65, 0x3a, 0x2f, 0x2f]
        + vstd::utf8::encode_utf8(host) + vstd::utf8::encode_utf8(path));
    assert(scheme() =~= url.subrange(0, 7));
    assert(url.skip(7) =~= host + path);
    lemma_first_slash(host, path);
}

/// A URL without a path means what stands behind `file://`, and a report without
/// that scheme means its path all the same, or all of it where it has no slash.
pub proof fn law_other_directory_reports(host: Seq<char>, path: Seq<char>)
    requires
        !host.contains('/'),
        path.len() > 0 ==> path[0] == '/',
    ensures
        payload_event(
            seq![0x37u8, 0x3b, 0x66, 0x69, 0x6c, 0x65, 0x3a, 0x2f, 0x2f] + vstd::utf8::encode_utf8(host),
        ) == Some(EventView::Cwd(host)),
        !seq!['f', 'i', 'l', 'e', ':', '/', '/'].is_prefix_of(host + path) ==> payload_event(
            seq![0x37u8, 0x3b] + vstd::utf8::encode_utf8(host + path),
        ) == Some(
            EventView::Cwd(
                if path.len() > 0 {
                    path
                } else {
                    host
                },
            ),
        ),
{
    let none: Seq<char> = seq![];
    let file = seq!['f', 'i', 'l', 'e', ':', '/', '/'];
    let url = file + host;
    lemma_scheme();
    text::lemma_encoding_of_joined(file, host);
    text::law_decoding_inverts_encoding(vstd::utf8::encode_utf8(url), url);
    let bytes = vstd::utf8::encode_utf8(url);
    lemma_report_7(bytes);
    assert(code_7() + bytes =~= seq![0x37u8, 0x3b, 0x66, 0x69, 0x6c, 0x65, 0x3a, 0x2f, 0x2f]
        + vstd::utf8::encode_utf8(host));
    assert(scheme() =~= url.subrange(0, 7));
    assert(url.skip(7) =~= host + none);
    lemma_first_slash(host, none);
    let plain = host + path;
    text::law_decoding_inverts_encoding(vstd::utf8::encode_utf8(plain), plain);
    lemma_report_7(vstd::utf8::encode_utf8(plain));
    lemma_first_slash(host, path);
}

/// A report of the working directory that is no text means nothing.
pub proof fn law_directory_report_is_text(params: Seq<u8>)
    requires
        !vstd::utf8::valid_utf8(params),
    ensures
        payload_event(seq![0x37u8, 0x3b] + params) is None,
{
    lemma_report_7(params);
}

proof fn lemma_report_133(params: Seq<u8>)
    ensures
        payload_event(seq![0x31u8, 0x33, 0x33, 0x3b] + params) == event_133(params),
{
    let code = seq![0x31u8, 0x33, 0x33];
    let body = seq![0x31u8, 0x33, 0x33, 0x3b] + params;
    reveal_with_fuel(text::first_index, 5);
    assert(body[0] == 0x31 && body[1] == 0x33 && body[2] == 0x33 && body[3] == 0x3b);
    assert(text::first_index(body, 0x3bu8, 0) == Some(3int));
    assert(body.subrange(0, 3) =~= code);
    assert(body.subrange(4, body.len() as int) =~= params);
}

/// The start of a prompt, its end and the start of a command are reported by
/// `133;A`, `133;B` and `133;C`, and by nothing else.
pub proof fn law_prompt_reports(body: Seq<u8>)
    ensures
        payload_event(body) == Some(EventView::PromptStart) <==> body == seq![0x31u8, 0x33, 0x33, 0x3b, 0x41],
        payload_event(body) == Some(EventView::CommandInputStart) <==> body == seq![0x31u8, 0x33, 0x33, 0x3b, 0x42],
        payload_event(body) == Some(EventView::CommandStart) <==> body == seq![0x31u8, 0x33, 0x33, 0x3b, 0x43],
{
    let head = seq![0x31u8, 0x33, 0x33, 0x3b];
    assert(head + seq![0x41u8] =~= seq![0x31u8, 0x33, 0x33, 0x3b, 0x41]);
    assert(head + seq![0x42u8] =~= seq![0x31u8, 0x33, 0x33, 0x3b, 0x42]);
    assert(head + seq![0x43u8] =~= seq![0x31u8, 0x33, 0x33, 0x3b, 0x43]);
    lemma_report_133(seq![0x41u8]);
    lemma_report_133(seq![0x42u8]);
    lemma_report_133(seq![0x43u8]);
    assert(seq![0x42u8][0] != seq![0x41u8][0]);
    assert(seq![0x43u8][0] != seq![0x41u8][0]);
    assert(seq![0x43u8][0] != seq![0x42u8][0]);
    lemma_body_of_133(body);
}

proof fn lemma_body_of_133(body: Seq<u8>)
    ensures
        payload_event(body) is Some && !(payload_event(body)->0 is Cwd) ==> body.len() >= 4 && body == seq![
            0x31u8,
            0x33,
            0x33,
            0x3b,
        ] + body.skip(4) && payload_event(body) == event_133(body.skip(4)),
{
    text::lemma_first_index(body, 0x3bu8, 0);
    if payload_event(body) is Some && !(payload_event(body)->0 is Cwd) {
        let sep = text::first_index(body, 0x3bu8, 0)->0;
        let code = body.subrange(0, sep);
        assert(code == seq![0x31u8, 0x33, 0x33]);
        assert(code.len() == 3);
        assert(body[0] == code[0] && body[1] == code[1] && body[2] == code[2]);
        assert(body =~= seq![0x31u8, 0x33, 0x33, 0x3b] + body.skip(4));
        assert(body.subrange(4, body.len() as int) =~= body.skip(4));
    }
}

/// The end of a command is reported by `133;D`, alone or with `;` and an exit
/// code: a number that an `i32` holds is the exit code, other text is none, and
/// what is no text makes the report void. Nothing else reports it.
pub proof fn law_command_done_reports(body: Seq<u8>, code: Seq<u8>)
    ensures
        payload_event(seq![0x31u8, 0x33, 0x33, 0x3b, 0x44]) == Some(EventView::CommandDone(None)),
        payload_event(seq![0x31u8, 0x33, 0x33, 0x3b, 0x44, 0x3b] + code) == (if vstd::utf8::valid_utf8(code) {
            Some(EventView::CommandDone(text::i32_value(code)))
        } else {
            None
        }),
        payload_event(body) is Some && payload_event(body)->0 is CommandDone ==> body == seq![
            0x31u8,
            0x33,
            0x33,
            0x3b,
            0x44,
        ] || (body.len() >= 6 && body.take(6) == seq![0x31u8, 0x33, 0x33, 0x3b, 0x44, 0x3b]),
{
    let head = seq![0x31u8, 0x33, 0x33, 0x3b];
    let alone = seq![0x44u8];
    let with = seq![0x44u8, 0x3b] + code;
    lemma_report_133(alone);
    assert(head + alone =~= seq![0x31u8, 0x33, 0x33, 0x3b, 0x44]);
    assert(alone[0] == 0x44);
    assert(alone != seq![0x41u8] && alone != seq![0x42u8] && alone != seq![0x43u8]) by {
        assert(seq![0x41u8][0] == 0x41 && seq![0x42u8][0] == 0x42 && seq![0x43u8][0] == 0x43);
    }
    lemma_report_133(with);
    assert(head + with =~= seq![0x31u8, 0x33, 0x33, 0x3b, 0x44, 0x3b] + code);
    assert(with.len() >= 2);
    assert(seq![0x41u8].len() == 1 && seq![0x42u8].len() == 1 && seq![0x43u8].len() == 1 && seq![0x44u8].len() == 1);
    assert(with.subrange(2, with.len() as int) =~= code);
    lemma_body_of_133(body);
    if payload_event(body) is Some && payload_event(body)->0 is CommandDone {
        let params = body.skip(4);
        if params == alone {
            assert(body =~= head + alone);
        } else {
            assert(params[0] == body[4] && params[1] == body[5]);
            assert(body.take(6) =~= seq![0x31u8, 0x33, 0x33, 0x3b, 0x44, 0x3b]);
        }
    }
}

/// A sequence with any other code means nothing.
pub proof fn law_other_codes_mean_nothing(code: Seq<u8>, params: Seq<u8>)
    requires
        !code.contains(0x3b),
        code != seq![0x31u8, 0x33, 0x33],
        code != seq![0x37u8],
    ensures
        payload_event(code) is None,
        payload_event(code + seq![0x3bu8] + params) is None,
{
    let body = code + seq![0x3bu8] + params;
    text::lemma_first_index(code, 0x3bu8, 0);
    text::lemma_first_index(body, 0x3bu8, 0);
    if let Some(k) = text::first_index(code, 0x3bu8, 0) {
        assert(code.contains(code[k]));
    }
    let sep = text::first_index(body, 0x3bu8, 0)->0;
    assert(body[code.len() as int] == 0x3b);
    if sep < code.len() {
        assert(code.contains(code[sep]));
    }
    assert(body.subrange(0, code.len() as int) =~= code);
}

/// What each report does to the shell state: the prompt and the command move it,
/// the end of a command also records an exit code if there is one, and a working
/// directory replaces the last. Nothing else changes.
pub proof fn law_reports_change_the_state(v: StateView, code: i32, cwd: Seq<char>)
    ensures
        applied(v, EventView::PromptStart) == (StateView { state: ShellState::AtPrompt, ..v }),
        applied(v, EventView::CommandInputStart) == (if v.state is PrePrompt {
            StateView { state: ShellState::AtPrompt, ..v }
        } else {
            v
        }),
        applied(v, EventView::CommandStart) == (StateView { state: ShellState::CommandRunning, ..v }),
        applied(v, EventView::CommandDone(Some(code))) == (StateView {
            state: ShellState::PrePrompt,
            last_exit: Some(code),
            ..v
        }),
        applied(v, EventView::CommandDone(None)) == (StateView { state: ShellState::PrePrompt, ..v }),
        applied(v, EventView::Cwd(cwd)) == (StateView { cwd: Some(cwd), ..v }),
{
}

/// What each report does to the line: a prompt and a command start a new one, in
/// the state and in the model of what is typed; a prompt puts the model in step.
/// Apart from the line, the state changes as it does without the model.
pub proof fn law_reports_reach_the_line(v: StateView, i: InputView, event: EventView)
    ensures
        event is PromptStart || event is CommandStart ==> reported(v, i, event).0 == (StateView {
            line: seq![],
            cursor: 0,
            ..applied(v, event)
        }),
        !(event is PromptStart || event is CommandStart) ==> reported(v, i, event).0 == applied(v, event),
        event is PromptStart ==> reported(v, i, event).1 == (InputView {
            line: line_buffer::empty_line(),
            synced: true,
            ..i
        }),
        event is CommandInputStart ==> reported(v, i, event).1 == (InputView { synced: true, ..i }),
        event is CommandStart ==> reported(v, i, event).1 == (InputView { line: line_buffer::empty_line(), ..i }),
        event is CommandDone || event is Cwd ==> reported(v, i, event).1 == i,
{
}

/// Reports take effect one after the other, in the order in which they come.
pub proof fn law_reports_come_one_by_one(v: StateView, i: InputView, events: Seq<EventView>, event: EventView)
    ensures
        reported_all(v, i, Seq::<EventView>::empty()) == (v, i),
        reported_all(v, i, events.push(event)) == reported(
            reported_all(v, i, events).0,
            reported_all(v, i, events).1,
            event,
        ),
{
    assert(events.push(event).drop_last() =~= events);
}

/// Every event stands for itself, its exit code or its directory with it.
pub proof fn law_events_show_what_they_carry(e: &OscEvent)
    ensures
        e is Osc133PromptStart <==> e@ is PromptStart,
        e is Osc133CommandInputStart <==> e@ is CommandInputStart,
        e is Osc133CommandStart <==> e@ is CommandStart,
        e is Osc133CommandDone <==> e@ is CommandDone,
        e is Osc7Cwd <==> e@ is Cwd,
        *e matches OscEvent::Osc133CommandDone(exit) ==> e@ == EventView::CommandDone(exit),
        *e matches OscEvent::Osc7Cwd(cwd) ==> e@ == EventView::Cwd(cwd@),
{
}

} // verus!
