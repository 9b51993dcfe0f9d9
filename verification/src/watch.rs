//! The watch loop, as a state machine: idle until a change is noticed, then
//! a fixed delay, then one rebuild, then idle again.
//!
//! The delay is fixed: changes that arrive while the loop waits or rebuilds
//! stay queued, and each one that is picked up afterwards starts a cycle of
//! its own. A burst of changes may therefore rebuild more than once.

use vstd::prelude::*;

verus! {

/// How long the idle loop waits for a change before it looks again, in
/// milliseconds.
pub const POLL_MS: u64 = 100;

/// How long the loop waits after a change before it rebuilds, in
/// milliseconds.
pub const DEBOUNCE_MS: u64 = 200;

/// The state of the watch loop.
#[derive(Clone, Copy, PartialEq, Eq, Structural, Debug)]
pub enum WatchState {
    /// Waiting for a change.
    Idle,
    /// A change was noticed; the delay is running.
    Debouncing,
    /// The manifest is being generated anew.
    Rebuilding,
}

/// What the loop is told.
#[derive(Clone, Copy, PartialEq, Eq, Structural, Debug)]
pub enum WatchEvent {
    /// A change notification was received.
    Changed,
    /// The wait for a change timed out.
    Quiet,
    /// The delay after a change has elapsed.
    DelayElapsed,
    /// The pass has ended, well or not.
    RebuildFinished { succeeded: bool },
}

/// What the loop's driver is to do.
#[derive(Clone, Copy, PartialEq, Eq, Structural, Debug)]
pub enum WatchAction {
    /// Wait for a change notification, for this long at most.
    Poll { timeout_ms: u64 },
    /// Sleep for this long.
    Sleep { delay_ms: u64 },
    /// Run one full pass.
    Rebuild,
}

/// The state after an event. An event that the state does not wait for
/// changes nothing; a pass that fails leads back to idle like one that
/// succeeds.
pub open spec fn next_state(s: WatchState, e: WatchEvent) -> WatchState {
    match (s, e) {
        (WatchState::Idle, WatchEvent::Changed) => WatchState::Debouncing,
        (WatchState::Debouncing, WatchEvent::DelayElapsed) => WatchState::Rebuilding,
        (WatchState::Rebuilding, WatchEvent::RebuildFinished { .. }) => WatchState::Idle,
        _ => s,
    }
}

/// What is to be done in a state.
pub open spec fn action_of(s: WatchState) -> WatchAction {
    match s {
        WatchState::Idle => WatchAction::Poll { timeout_ms: POLL_MS },
        WatchState::Debouncing => WatchAction::Sleep { delay_ms: DEBOUNCE_MS },
        WatchState::Rebuilding => WatchAction::Rebuild,
    }
}

/// The event starts a rebuild.
pub open spec fn starts_rebuild(s: WatchState, e: WatchEvent) -> bool {
    s != WatchState::Rebuilding && next_state(s, e) == WatchState::Rebuilding
}

/// The state after a sequence of events.
pub open spec fn state_after(s: WatchState, events: Seq<WatchEvent>) -> WatchState
    decreases events.len(),
{
    if events.len() == 0 {
        s
    } else {
        state_after(next_state(s, events[0]), events.drop_first())
    }
}

/// How many rebuilds a sequence of events starts.
pub open spec fn rebuilds(s: WatchState, events: Seq<WatchEvent>) -> nat
    decreases events.len(),
{
    if events.len() == 0 {
        0
    } else {
        let rest = rebuilds(next_state(s, events[0]), events.drop_first());
        if starts_rebuild(s, events[0]) {
            rest + 1
        } else {
            rest
        }
    }
}

/// `n` timeouts in a row.
pub open spec fn quiet(n: nat) -> Seq<WatchEvent> {
    Seq::new(n, |i: int| WatchEvent::Quiet)
}

/// One change, picked up and followed through to the end of its pass.
pub open spec fn cycle(succeeded: bool) -> Seq<WatchEvent> {
    seq![
        WatchEvent::Changed,
        WatchEvent::DelayElapsed,
        WatchEvent::RebuildFinished { succeeded },
    ]
}

/// `n` changes, each picked up after the pass before it has ended.
pub open spec fn cycles(n: nat) -> Seq<WatchEvent>
    decreases n,
{
    if n == 0 {
        Seq::empty()
    } else {
        cycle(true) + cycles((n - 1) as nat)
    }
}

/// The watch loop.
pub struct WatchLoop {
    state: WatchState,
}

impl View for WatchLoop {
    type V = WatchState;

    closed spec fn view(&self) -> WatchState {
        self.state
    }
}

impl WatchLoop {
    /// A loop that is idle.
    pub fn new() -> (w: WatchLoop)
        ensures
            w@ == WatchState::Idle,
    {
        WatchLoop { state: WatchState::Idle }
    }

    /// The state the loop is in.
    pub fn state(&self) -> (s: WatchState)
        ensures
            s == self@,
    {
        self.state
    }

    /// What is to be done now.
    pub fn action(&self) -> (a: WatchAction)
        ensures
            a == action_of(self@),
    {
        match self.state {
            WatchState::Idle => WatchAction::Poll { timeout_ms: POLL_MS },
            WatchState::Debouncing => WatchAction::Sleep { delay_ms: DEBOUNCE_MS },
            WatchState::Rebuilding => WatchAction::Rebuild,
        }
    }

    /// Takes an event and says what is to be done next.
    pub fn on_event(&mut self, event: WatchEvent) -> (a: WatchAction)
        ensures
            final(self)@ == next_state(old(self)@, event),
            a == action_of(final(self)@),
    {
        let next = match (self.state, event) {
            (WatchState::Idle, WatchEvent::Changed) => WatchState::Debouncing,
            (WatchState::Debouncing, WatchEvent::DelayElapsed) => WatchState::Rebuilding,
            (WatchState::Rebuilding, WatchEvent::RebuildFinished { .. }) => WatchState::Idle,
            (s, _) => s,
        };
        self.state = next;
        self.action()
    }
}

/// Two sequences of events, one after the other, start as many rebuilds as
/// the first, and then the second from where the first ended.
pub proof fn lemma_events_in_sequence(s: WatchState, a: Seq<WatchEvent>, b: Seq<WatchEvent>)
    ensures
        state_after(s, a + b) == state_after(state_after(s, a), b),
        rebuilds(s, a + b) == rebuilds(s, a) + rebuilds(state_after(s, a), b),
    decreases a.len(),
{
    if a.len() == 0 {
        assert(a + b =~= b);
    } else {
        assert((a + b)[0] == a[0]);
        assert((a + b).drop_first() =~= a.drop_first() + b);
        lemma_events_in_sequence(next_state(s, a[0]), a.drop_first(), b);
    }
}

/// While nothing changes, the idle loop stays idle and rebuilds nothing.
pub proof fn lemma_quiet_rebuilds_nothing(n: nat)
    ensures
        state_after(WatchState::Idle, quiet(n)) == WatchState::Idle,
        rebuilds(WatchState::Idle, quiet(n)) == 0,
    decreases n,
{
    if n > 0 {
        assert(quiet(n).drop_first() =~= quiet((n - 1) as nat));
        lemma_quiet_rebuilds_nothing((n - 1) as nat);
    }
}

/// One change that is picked up leads through the delay to one rebuild and
/// back to idle, whether the pass succeeds or not.
pub proof fn lemma_cycle_rebuilds_once(succeeded: bool)
    ensures
        state_after(WatchState::Idle, cycle(succeeded)) == WatchState::Idle,
        rebuilds(WatchState::Idle, cycle(succeeded)) == 1,
{
    reveal_with_fuel(state_after, 4);
    reveal_with_fuel(rebuilds, 4);
    let c = cycle(succeeded);
    assert(c.drop_first() =~= seq![
        WatchEvent::DelayElapsed,
        WatchEvent::RebuildFinished { succeeded },
    ]);
    assert(c.drop_first().drop_first() =~= seq![WatchEvent::RebuildFinished { succeeded }]);
    assert(c.drop_first().drop_first().drop_first() =~= Seq::<WatchEvent>::empty());
}

/// A single change, with no other before the delay has elapsed nor after,
/// regenerates the manifest exactly once, however long the loop has been
/// idle before and stays idle afterwards.
pub proof fn lemma_single_change_rebuilds_once(before: nat, after: nat, succeeded: bool)
    ensures
        rebuilds(WatchState::Idle, quiet(before) + cycle(succeeded) + quiet(after)) == 1,
        state_after(WatchState::Idle, quiet(before) + cycle(succeeded) + quiet(after))
            == WatchState::Idle,
{
    lemma_quiet_rebuilds_nothing(before);
    lemma_quiet_rebuilds_nothing(after);
    lemma_cycle_rebuilds_once(succeeded);
    lemma_events_in_sequence(WatchState::Idle, quiet(before), cycle(succeeded));
    lemma_events_in_sequence(WatchState::Idle, quiet(before) + cycle(succeeded), quiet(after));
}

/// Changes are not coalesced: `n` changes, each picked up after the pass
/// before it has ended, start `n` rebuilds.
pub proof fn lemma_each_change_rebuilds(n: nat)
    ensures
        state_after(WatchState::Idle, cycles(n)) == WatchState::Idle,
        rebuilds(WatchState::Idle, cycles(n)) == n,
    decreases n,
{
    if n > 0 {
        lemma_cycle_rebuilds_once(true);
        lemma_each_change_rebuilds((n - 1) as nat);
        lemma_events_in_sequence(WatchState::Idle, cycle(true), cycles((n - 1) as nat));
    }
}

} // verus!
