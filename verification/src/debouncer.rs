//! When the suggestion engine is told that the input has changed.
//!
//! Ticks come from the thread that forwards the user's input, over a channel
//! that drops what does not fit. A burst of ticks is coalesced into one
//! [`Event::InputChanged`], sent once the burst has been quiet for a while. The
//! [`Debouncer`] decides what to do next; its caller owns the channels and the
//! clock, does it, and reports what came of it.

use vstd::prelude::*;

verus! {

/// Quiet window, in milliseconds, before the debouncer emits an
/// [`Event::InputChanged`]: short enough for suggestions to feel live, long
/// enough not to churn on every keystroke.
pub const DEBOUNCE_QUIET_MS: u64 = 30;

/// Capacity of the tick channel. One slot is sufficient: the debouncer treats
/// any pending tick the same, so coalescing into a single slot is free.
pub const TICK_CHANNEL_CAPACITY: usize = 1;

/// Capacity of the change-event channel between the debouncer and the
/// suggestion consumer. Dropping redundant notifications when the consumer is
/// slow is better than back-pressure on the I/O threads.
pub const EVENT_CHANNEL_CAPACITY: usize = 16;

/// Messages flowing from the debouncer to the suggestion engine.
#[derive(Debug, Clone, Copy, PartialEq, Eq, Structural)]
pub enum Event {
    /// The user's command line may have changed; re-parse and re-suggest.
    InputChanged,
}

/// What came of an attempt to send without waiting.
#[derive(Debug, Clone, Copy, PartialEq, Eq, Structural)]
pub enum SendOutcome {
    /// The message is in the channel.
    Sent,
    /// The channel was full; the message was dropped.
    Full,
    /// Nobody receives any more.
    Disconnected,
}

/// Whether a sender whose message fared like this goes on sending: a full
/// channel only costs a redundant message, while without a receiver there is
/// nobody left to send to.
pub open spec fn goes_on(outcome: SendOutcome) -> bool {
    !(outcome is Disconnected)
}

impl SendOutcome {
    /// Whether the sender goes on sending after this.
    pub fn sender_goes_on(self) -> (r: bool)
        ensures
            r == goes_on(self),
    {
        match self {
            SendOutcome::Sent => true,
            SendOutcome::Full => true,
            SendOutcome::Disconnected => false,
        }
    }
}

/// What a [`Debouncer`] wants done.
#[derive(Debug, Clone, Copy, PartialEq, Eq, Structural)]
pub enum Step {
    /// Wait for a tick, however long it takes.
    AwaitTick,
    /// Wait for a tick, but no longer than the quiet window.
    AwaitTickOrQuiet,
    /// Try to send the event.
    Send(Event),
    /// Stop.
    Exit,
}

/// What happened.
#[derive(Debug, Clone, Copy, PartialEq, Eq, Structural)]
pub enum Input {
    /// A tick came.
    Tick,
    /// No tick will ever come again.
    TicksClosed,
    /// The quiet window passed without a tick.
    Quiet,
    /// The event was sent, with this outcome.
    Sending(SendOutcome),
}

/// Where a [`Debouncer`] is.
#[derive(Debug, Clone, Copy, PartialEq, Eq, Structural)]
pub enum Mode {
    /// No burst is under way.
    Idle,
    /// A burst is under way.
    Coalescing,
    /// A burst is over and its event has to be sent.
    Emitting,
    /// The ticks ended in a burst: its event has to be sent, and then all is
    /// over.
    Flushing,
    /// All is over.
    Done,
}

/// What is wanted in a mode.
pub open spec fn step_in(mode: Mode) -> Step {
    match mode {
        Mode::Idle => Step::AwaitTick,
        Mode::Coalescing => Step::AwaitTickOrQuiet,
        Mode::Emitting => Step::Send(Event::InputChanged),
        Mode::Flushing => Step::Send(Event::InputChanged),
        Mode::Done => Step::Exit,
    }
}

/// The mode after `input`. What cannot come of the step that was wanted changes
/// nothing.
pub open spec fn after(mode: Mode, input: Input) -> Mode {
    match (mode, input) {
        (Mode::Idle, Input::Tick) => Mode::Coalescing,
        (Mode::Idle, Input::TicksClosed) => Mode::Done,
        (Mode::Coalescing, Input::Quiet) => Mode::Emitting,
        (Mode::Coalescing, Input::TicksClosed) => Mode::Flushing,
        (Mode::Emitting, Input::Sending(outcome)) => if goes_on(outcome) {
            Mode::Idle
        } else {
            Mode::Done
        },
        (Mode::Flushing, Input::Sending(_)) => Mode::Done,
        _ => mode,
    }
}

/// Coalesces bursts of ticks.
#[derive(Debug)]
pub struct Debouncer {
    mode: Mode,
}

impl View for Debouncer {
    type V = Mode;

    closed spec fn view(&self) -> Mode {
        self.mode
    }
}

impl Debouncer {
    /// A debouncer that has seen no tick yet.
    pub fn new() -> (r: Self)
        ensures
            r@ == Mode::Idle,
    {
        Debouncer { mode: Mode::Idle }
    }

    /// What has to be done next.
    pub fn step(&self) -> (r: Step)
        ensures
            r == step_in(self@),
    {
        match self.mode {
            Mode::Idle => Step::AwaitTick,
            Mode::Coalescing => Step::AwaitTickOrQuiet,
            Mode::Emitting => Step::Send(Event::InputChanged),
            Mode::Flushing => Step::Send(Event::InputChanged),
            Mode::Done => Step::Exit,
        }
    }

    /// Take note of what happened.
    pub fn observe(&mut self, input: Input)
        ensures
            final(self)@ == after(old(self)@, input),
    {
        self.mode = match (self.mode, input) {
            (Mode::Idle, Input::Tick) => Mode::Coalescing,
            (Mode::Idle, Input::TicksClosed) => Mode::Done,
            (Mode::Coalescing, Input::Quiet) => Mode::Emitting,
            (Mode::Coalescing, Input::TicksClosed) => Mode::Flushing,
            (Mode::Emitting, Input::Sending(outcome)) => if outcome.sender_goes_on() {
                Mode::Idle
            } else {
                Mode::Done
            },
            (Mode::Flushing, Input::Sending(_)) => Mode::Done,
            (mode, _) => mode,
        };
    }
}

impl Default for Debouncer {
    fn default() -> (r: Self)
        ensures
            r@ == Mode::Idle,
    {
        Debouncer::new()
    }
}

/// The mode after several inputs.
pub open spec fn after_all(mode: Mode, inputs: Seq<Input>) -> Mode
    decreases inputs.len(),
{
    if inputs.len() == 0 {
        mode
    } else {
        after(after_all(mode, inputs.drop_last()), inputs.last())
    }
}

/// How many events are sent while the inputs come in.
pub open spec fn sent(mode: Mode, inputs: Seq<Input>) -> nat
    decreases inputs.len(),
{
    if inputs.len() == 0 {
        0
    } else {
        let before = after_all(mode, inputs.drop_last());
        sent(mode, inputs.drop_last()) + if step_in(before) is Send && inputs.last() is Sending {
            1nat
        } else {
            0nat
        }
    }
}

/// How many ticks are among the inputs.
pub open spec fn ticks(inputs: Seq<Input>) -> nat
    decreases inputs.len(),
{
    if inputs.len() == 0 {
        0
    } else {
        ticks(inputs.drop_last()) + if inputs.last() is Tick {
            1nat
        } else {
            0nat
        }
    }
}

/// A burst of `n` ticks.
pub open spec fn burst(n: nat) -> Seq<Input> {
    Seq::new(n, |i: int| Input::Tick)
}

/// The inputs may be looked at in two parts.
pub proof fn law_inputs_may_be_split(mode: Mode, first: Seq<Input>, second: Seq<Input>)
    ensures
        after_all(mode, first + second) == after_all(after_all(mode, first), second),
        sent(mode, first + second) == sent(mode, first) + sent(after_all(mode, first), second),
    decreases second.len(),
{
    if second.len() == 0 {
        assert(first + second =~= first);
    } else {
        law_inputs_may_be_split(mode, first, second.drop_last());
        assert((first + second).drop_last() =~= first + second.drop_last());
        assert((first + second).last() == second.last());
    }
}

proof fn lemma_burst(n: nat)
    requires
        n > 0,
    ensures
        after_all(Mode::Idle, burst(n)) == Mode::Coalescing,
        sent(Mode::Idle, burst(n)) == 0,
    decreases n,
{
    assert(burst(n).drop_last() =~= burst((n - 1) as nat));
    if n > 1 {
        lemma_burst((n - 1) as nat);
    } else {
        reveal_with_fuel(after_all, 2);
        reveal_with_fuel(sent, 2);
        assert(burst(0) =~= seq![]);
    }
}

/// A burst of ticks, however long, brings exactly one event, sent once the
/// burst is quiet and not before; then the next burst may come, unless nobody
/// receives any more.
pub proof fn law_burst_is_coalesced(n: nat, outcome: SendOutcome)
    requires
        n > 0,
    ensures
        sent(Mode::Idle, burst(n)) == 0,
        sent(Mode::Idle, burst(n) + seq![Input::Quiet, Input::Sending(outcome)]) == 1,
        after_all(Mode::Idle, burst(n) + seq![Input::Quiet, Input::Sending(outcome)]) == (if goes_on(outcome) {
            Mode::Idle
        } else {
            Mode::Done
        }),
{
    lemma_burst(n);
    let tail = seq![Input::Quiet, Input::Sending(outcome)];
    law_inputs_may_be_split(Mode::Idle, burst(n), tail);
    reveal_with_fuel(after_all, 3);
    reveal_with_fuel(sent, 3);
    assert(tail.drop_last() =~= seq![Input::Quiet]);
    assert(tail.drop_last().drop_last() =~= seq![]);
}

/// Two bursts with a quiet window between them bring two events.
pub proof fn law_separate_bursts(n: nat, m: nat, first: SendOutcome, second: SendOutcome)
    requires
        n > 0,
        m > 0,
        goes_on(first),
    ensures
        sent(
            Mode::Idle,
            (burst(n) + seq![Input::Quiet, Input::Sending(first)]) + (burst(m) + seq![
                Input::Quiet,
                Input::Sending(second),
            ]),
        ) == 2,
{
    law_burst_is_coalesced(n, first);
    law_burst_is_coalesced(m, second);
    law_inputs_may_be_split(
        Mode::Idle,
        burst(n) + seq![Input::Quiet, Input::Sending(first)],
        burst(m) + seq![Input::Quiet, Input::Sending(second)],
    );
}

/// When the ticks end in the middle of a burst, one last event is sent, and
/// then the debouncer stops, whatever became of that event.
pub proof fn law_last_burst_is_flushed(n: nat, outcome: SendOutcome)
    requires
        n > 0,
    ensures
        sent(Mode::Idle, burst(n) + seq![Input::TicksClosed, Input::Sending(outcome)]) == 1,
        after_all(Mode::Idle, burst(n) + seq![Input::TicksClosed, Input::Sending(outcome)]) == Mode::Done,
{
    lemma_burst(n);
    let tail = seq![Input::TicksClosed, Input::Sending(outcome)];
    law_inputs_may_be_split(Mode::Idle, burst(n), tail);
    reveal_with_fuel(after_all, 3);
    reveal_with_fuel(sent, 3);
    assert(tail.drop_last() =~= seq![Input::TicksClosed]);
    assert(tail.drop_last().drop_last() =~= seq![]);
}

/// When the ticks end outside a burst, the debouncer stops without an event.
pub proof fn law_idle_debouncer_stops(inputs: Seq<Input>)
    ensures
        after(Mode::Idle, Input::TicksClosed) == Mode::Done,
        after_all(Mode::Done, inputs) == Mode::Done,
        sent(Mode::Done, inputs) == 0,
    decreases inputs.len(),
{
    if inputs.len() > 0 {
        law_idle_debouncer_stops(inputs.drop_last());
    }
}

/// There are never more events than ticks: an idle debouncer stays silent until
/// a tick comes.
pub proof fn law_no_event_without_tick(inputs: Seq<Input>)
    ensures
        sent(Mode::Idle, inputs) <= ticks(inputs),
        after_all(Mode::Idle, inputs) is Coalescing || after_all(Mode::Idle, inputs) is Emitting || after_all(
            Mode::Idle,
            inputs,
        ) is Flushing ==> sent(Mode::Idle, inputs) < ticks(inputs),
    decreases inputs.len(),
{
    if inputs.len() > 0 {
        law_no_event_without_tick(inputs.drop_last());
    }
}

/// Only a lost receiver stops a sender.
pub proof fn law_only_a_lost_receiver_stops_a_sender()
    ensures
        goes_on(SendOutcome::Sent),
        goes_on(SendOutcome::Full),
        !goes_on(SendOutcome::Disconnected),
{
}

/// An event is to be sent exactly after a burst; in a burst the wait is limited,
/// before one it is not.
pub proof fn law_steps(mode: Mode)
    ensures
        step_in(mode) == Step::Send(Event::InputChanged) <==> mode is Emitting || mode is Flushing,
        step_in(mode) is AwaitTick <==> mode is Idle,
        step_in(mode) is AwaitTickOrQuiet <==> mode is Coalescing,
        step_in(mode) is Exit <==> mode is Done,
{
}

} // verus!
