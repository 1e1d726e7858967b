use hintkit::debouncer::{
    Debouncer, Event, Input, SendOutcome, Step, DEBOUNCE_QUIET_MS, EVENT_CHANNEL_CAPACITY, TICK_CHANNEL_CAPACITY,
};

/// Runs the inputs through a debouncer, and collects the events that it sends.
fn run(debouncer: &mut Debouncer, inputs: &[Input]) -> Vec<Event> {
    let mut events = Vec::new();
    for &input in inputs {
        if let (Step::Send(event), Input::Sending(_)) = (debouncer.step(), input) {
            events.push(event);
        }
        debouncer.observe(input);
    }
    events
}

#[test]
fn debouncer_coalesces_burst_into_single_event() {
    let mut d = Debouncer::new();
    assert_eq!(d.step(), Step::AwaitTick);
    let burst = [Input::Tick; 50];
    assert!(run(&mut d, &burst).is_empty());
    assert_eq!(d.step(), Step::AwaitTickOrQuiet);
    let events = run(&mut d, &[Input::Quiet, Input::Sending(SendOutcome::Sent)]);
    assert_eq!(events, vec![Event::InputChanged]);
    // No further event should fire — the burst was a single one.
    assert_eq!(d.step(), Step::AwaitTick);
    assert!(run(&mut d, &[Input::Quiet, Input::Quiet]).is_empty());
    assert_eq!(d.step(), Step::AwaitTick);
}

#[test]
fn debouncer_exits_when_ticks_disconnect() {
    let mut d = Debouncer::new();
    assert!(run(&mut d, &[Input::TicksClosed]).is_empty());
    assert_eq!(d.step(), Step::Exit);
}

#[test]
fn separate_bursts_yield_separate_events() {
    let mut d = Debouncer::new();
    let once = [Input::Tick, Input::Quiet, Input::Sending(SendOutcome::Sent)];
    assert_eq!(run(&mut d, &once), vec![Event::InputChanged]);
    assert_eq!(run(&mut d, &once), vec![Event::InputChanged]);
}

#[test]
fn a_last_burst_is_flushed() {
    for outcome in [SendOutcome::Sent, SendOutcome::Full, SendOutcome::Disconnected] {
        let mut d = Debouncer::default();
        let events = run(&mut d, &[Input::Tick, Input::Tick, Input::TicksClosed, Input::Sending(outcome)]);
        assert_eq!(events, vec![Event::InputChanged]);
        assert_eq!(d.step(), Step::Exit);
        // Nothing brings it back.
        assert!(run(&mut d, &[Input::Tick, Input::Quiet, Input::Sending(outcome)]).is_empty());
        assert_eq!(d.step(), Step::Exit);
    }
}

#[test]
fn a_full_channel_only_drops_the_event() {
    let mut d = Debouncer::new();
    run(&mut d, &[Input::Tick, Input::Quiet, Input::Sending(SendOutcome::Full)]);
    assert_eq!(d.step(), Step::AwaitTick);
    run(&mut d, &[Input::Tick, Input::Quiet, Input::Sending(SendOutcome::Disconnected)]);
    assert_eq!(d.step(), Step::Exit);
}

#[test]
fn a_sender_goes_on_sending_while_somebody_receives() {
    assert!(SendOutcome::Sent.sender_goes_on());
    assert!(SendOutcome::Full.sender_goes_on());
    assert!(!SendOutcome::Disconnected.sender_goes_on());
}

#[test]
fn the_limits_are_as_documented() {
    assert_eq!(DEBOUNCE_QUIET_MS, 30);
    assert_eq!(TICK_CHANNEL_CAPACITY, 1);
    assert_eq!(EVENT_CHANNEL_CAPACITY, 16);
}
