use rojo_tree::watch::{WatchAction, WatchEvent, WatchLoop, WatchState, DEBOUNCE_MS, POLL_MS};

fn run(events: &[WatchEvent]) -> (WatchLoop, usize) {
    let mut w = WatchLoop::new();
    let mut rebuilds = 0;
    for e in events {
        if w.on_event(*e) == WatchAction::Rebuild && !matches!(e, WatchEvent::RebuildFinished { .. }) {
            if matches!(e, WatchEvent::DelayElapsed) {
                rebuilds += 1;
            }
        }
    }
    (w, rebuilds)
}

#[test]
fn the_loop_starts_idle_and_polls() {
    let w = WatchLoop::new();
    assert_eq!(w.state(), WatchState::Idle);
    assert_eq!(w.action(), WatchAction::Poll { timeout_ms: 100 });
    assert_eq!(POLL_MS, 100);
    assert_eq!(DEBOUNCE_MS, 200);
}

#[test]
fn a_single_change_rebuilds_exactly_once() {
    let mut w = WatchLoop::new();
    assert_eq!(w.on_event(WatchEvent::Quiet), WatchAction::Poll { timeout_ms: 100 });
    assert_eq!(w.on_event(WatchEvent::Changed), WatchAction::Sleep { delay_ms: 200 });
    assert_eq!(w.state(), WatchState::Debouncing);
    assert_eq!(w.on_event(WatchEvent::DelayElapsed), WatchAction::Rebuild);
    assert_eq!(w.state(), WatchState::Rebuilding);
    assert_eq!(
        w.on_event(WatchEvent::RebuildFinished { succeeded: true }),
        WatchAction::Poll { timeout_ms: 100 }
    );
    assert_eq!(w.state(), WatchState::Idle);
    for _ in 0..10 {
        assert_eq!(w.on_event(WatchEvent::Quiet), WatchAction::Poll { timeout_ms: 100 });
        assert_eq!(w.state(), WatchState::Idle);
    }
    let mut events = vec![WatchEvent::Quiet; 3];
    events.extend([
        WatchEvent::Changed,
        WatchEvent::DelayElapsed,
        WatchEvent::RebuildFinished { succeeded: true },
    ]);
    events.extend(vec![WatchEvent::Quiet; 5]);
    let (w, rebuilds) = run(&events);
    assert_eq!(rebuilds, 1);
    assert_eq!(w.state(), WatchState::Idle);
}

#[test]
fn a_failed_pass_leads_back_to_idle() {
    let mut w = WatchLoop::new();
    w.on_event(WatchEvent::Changed);
    w.on_event(WatchEvent::DelayElapsed);
    assert_eq!(
        w.on_event(WatchEvent::RebuildFinished { succeeded: false }),
        WatchAction::Poll { timeout_ms: 100 }
    );
    assert_eq!(w.state(), WatchState::Idle);
    assert_eq!(w.on_event(WatchEvent::Changed), WatchAction::Sleep { delay_ms: 200 });
}

#[test]
fn each_change_that_is_picked_up_rebuilds() {
    let mut events = Vec::new();
    for _ in 0..4 {
        events.extend([
            WatchEvent::Changed,
            WatchEvent::DelayElapsed,
            WatchEvent::RebuildFinished { succeeded: true },
        ]);
    }
    let (w, rebuilds) = run(&events);
    assert_eq!(rebuilds, 4);
    assert_eq!(w.state(), WatchState::Idle);
}

#[test]
fn events_that_a_state_does_not_wait_for_change_nothing() {
    let mut w = WatchLoop::new();
    assert_eq!(w.on_event(WatchEvent::DelayElapsed), WatchAction::Poll { timeout_ms: 100 });
    assert_eq!(
        w.on_event(WatchEvent::RebuildFinished { succeeded: true }),
        WatchAction::Poll { timeout_ms: 100 }
    );
    assert_eq!(w.state(), WatchState::Idle);
    w.on_event(WatchEvent::Changed);
    assert_eq!(w.on_event(WatchEvent::Changed), WatchAction::Sleep { delay_ms: 200 });
    assert_eq!(w.on_event(WatchEvent::Quiet), WatchAction::Sleep { delay_ms: 200 });
    assert_eq!(w.state(), WatchState::Debouncing);
    w.on_event(WatchEvent::DelayElapsed);
    assert_eq!(w.on_event(WatchEvent::Changed), WatchAction::Rebuild);
    assert_eq!(w.on_event(WatchEvent::DelayElapsed), WatchAction::Rebuild);
    assert_eq!(w.state(), WatchState::Rebuilding);
}

#[test]
fn quiet_alone_never_rebuilds() {
    let (w, rebuilds) = run(&vec![WatchEvent::Quiet; 50]);
    assert_eq!(rebuilds, 0);
    assert_eq!(w.state(), WatchState::Idle);
}
