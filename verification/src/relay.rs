use vstd::prelude::*;
use crate::codec::spec_decode_project;
use crate::codec::decode_project;
use crate::proto::{Project, ProjectView};

verus! {

/// Why a forwarding loop stopped.
#[derive(Clone, Copy, PartialEq, Eq, Structural)]
pub enum EndCause {
    /// The side it reads from reached end-of-stream.
    SourceEof,
    /// The side it reads from failed with an I/O error.
    SourceError,
    /// The side it writes to failed or closed.
    SinkError,
}

/// One of the three forwarding loops of a session.
#[derive(Clone, Copy, PartialEq, Eq, Structural)]
pub enum LoopId {
    /// Connection to process standard input.
    Inbound,
    /// Process standard output to connection.
    Outbound,
    /// Process standard error to the diagnostic sink.
    Diagnostics,
}

/// How a session ended.
#[derive(Clone, Copy, PartialEq, Eq, Structural)]
pub enum SessionOutcome {
    /// The handshake payload was malformed or named an invalid descriptor;
    /// no process was ever spawned.
    HandshakeError,
    /// The process could not be created.
    SpawnError,
    /// The process exited and every forwarding loop observed end-of-stream.
    ProcessExited,
    /// The operating system failed to report the process's termination; the
    /// process was terminated forcibly.
    ProcessWaitError,
}

/// The lifecycle of one session.
pub enum SessionState {
    /// Waiting for the first payload of the connection.
    AwaitingHandshake,
    /// The descriptor decoded; the process is being spawned.
    Launching { project: Project },
    /// Process running; forwarding loops live. Each flag records whether the
    /// corresponding loop is still running.
    Relaying { inbound_open: bool, outbound_open: bool, diag_open: bool },
    /// The process has terminated (the authoritative end-of-session signal);
    /// waiting for the remaining loops to observe end-of-stream.
    Draining { inbound_open: bool, outbound_open: bool, diag_open: bool, wait_ok: bool },
    /// Terminal: every handle released; no further transitions.
    Closed { outcome: SessionOutcome },
}

/// What happened, reported by the shell that runs the session.
pub enum SessionEvent {
    /// The first read of the connection returned this payload.
    HandshakeReceived { payload: Vec<u8> },
    SpawnSucceeded,
    SpawnFailed,
    /// A forwarding loop finished, for the given reason.
    LoopEnded { which: LoopId, cause: EndCause },
    /// The exit watcher observed the process's termination.
    ProcessExited,
    /// The exit watcher failed to wait on the process.
    WaitFailed,
}

/// What the shell must do next.
pub enum SessionAction {
    /// Nothing; keep running.
    Continue,
    /// Spawn the process this descriptor names, in its root directory.
    Spawn { project: Project },
    /// Drop the connection.
    CloseConnection,
    /// Forcibly terminate the process.
    TerminateProcess,
}

/// Mathematical values of states, events and actions.
pub enum StateView {
    AwaitingHandshake,
    Launching { project: ProjectView },
    Relaying { inbound_open: bool, outbound_open: bool, diag_open: bool },
    Draining { inbound_open: bool, outbound_open: bool, diag_open: bool, wait_ok: bool },
    Closed { outcome: SessionOutcome },
}

pub enum EventView {
    HandshakeReceived { payload: Seq<u8> },
    SpawnSucceeded,
    SpawnFailed,
    LoopEnded { which: LoopId, cause: EndCause },
    ProcessExited,
    WaitFailed,
}

pub enum ActionView {
    Continue,
    Spawn { project: ProjectView },
    CloseConnection,
    TerminateProcess,
}

impl View for SessionState {
    type V = StateView;

    open spec fn view(&self) -> StateView {
        match self {
            SessionState::AwaitingHandshake => StateView::AwaitingHandshake,
            SessionState::Launching { project } => StateView::Launching { project: project@ },
            SessionState::Relaying { inbound_open, outbound_open, diag_open } => StateView::Relaying {
                inbound_open: *inbound_open,
                outbound_open: *outbound_open,
                diag_open: *diag_open,
            },
            SessionState::Draining { inbound_open, outbound_open, diag_open, wait_ok } => StateView::Draining {
                inbound_open: *inbound_open,
                outbound_open: *outbound_open,
                diag_open: *diag_open,
                wait_ok: *wait_ok,
            },
            SessionState::Closed { outcome } => StateView::Closed { outcome: *outcome },
        }
    }
}

impl View for SessionEvent {
    type V = EventView;

    open spec fn view(&self) -> EventView {
        match self {
            SessionEvent::HandshakeReceived { payload } => EventView::HandshakeReceived {
                payload: payload@,
            },
            SessionEvent::SpawnSucceeded => EventView::SpawnSucceeded,
            SessionEvent::SpawnFailed => EventView::SpawnFailed,
            SessionEvent::LoopEnded { which, cause } => EventView::LoopEnded {
                which: *which,
                cause: *cause,
            },
            SessionEvent::ProcessExited => EventView::ProcessExited,
            SessionEvent::WaitFailed => EventView::WaitFailed,
        }
    }
}

impl View for SessionAction {
    type V = ActionView;

    open spec fn view(&self) -> ActionView {
        match self {
            SessionAction::Continue => ActionView::Continue,
            SessionAction::Spawn { project } => ActionView::Spawn { project: project@ },
            SessionAction::CloseConnection => ActionView::CloseConnection,
            SessionAction::TerminateProcess => ActionView::TerminateProcess,
        }
    }
}

/// Whether a loop's end means the network side is gone while the process may
/// still be running: the inbound loop's source and the outbound loop's sink
/// are the two halves of the connection.
pub open spec fn network_side_ended(which: LoopId, cause: EndCause) -> bool {
    match which {
        LoopId::Inbound => cause == EndCause::SourceEof || cause == EndCause::SourceError,
        LoopId::Outbound => cause == EndCause::SinkError,
        LoopId::Diagnostics => false,
    }
}

/// The loop flags after `which` has ended.
pub open spec fn spec_close_loop(i: bool, o: bool, d: bool, which: LoopId) -> (bool, bool, bool) {
    match which {
        LoopId::Inbound => (false, o, d),
        LoopId::Outbound => (i, false, d),
        LoopId::Diagnostics => (i, o, false),
    }
}

/// One transition of the session lifecycle: from a state and an observed
/// event to the next state and the action the shell must perform.
///
/// - A malformed or invalid handshake closes the session with
///   `HandshakeError`; only a well-formed handshake naming a valid (non-empty
///   command) descriptor is ever spawned.
/// - A spawn failure closes the session with `SpawnError`; no forwarding
///   happens in either case.
/// - While relaying, the end of a connection-side stream triggers forced
///   process termination, so a session never outlives its connection.
/// - The exit watcher's report is the authoritative end: it moves the
///   session to `Draining`, and once every loop has ended the session is
///   `Closed`. A wait failure also terminates the process forcibly.
/// - `Closed` is terminal; events that a state does not expect change
///   nothing.
pub open spec fn spec_step(s: StateView, e: EventView) -> (StateView, ActionView) {
    match (s, e) {
        (StateView::AwaitingHandshake, EventView::HandshakeReceived { payload }) => {
            match spec_decode_project(payload) {
                Some(p) => {
                    if p.valid() {
                        (StateView::Launching { project: p }, ActionView::Spawn { project: p })
                    } else {
                        (
                            StateView::Closed { outcome: SessionOutcome::HandshakeError },
                            ActionView::CloseConnection,
                        )
                    }
                },
                None => (
                    StateView::Closed { outcome: SessionOutcome::HandshakeError },
                    ActionView::CloseConnection,
                ),
            }
        },
        (StateView::Launching { .. }, EventView::SpawnSucceeded) => (
            StateView::Relaying { inbound_open: true, outbound_open: true, diag_open: true },
            ActionView::Continue,
        ),
        (StateView::Launching { .. }, EventView::SpawnFailed) => (
            StateView::Closed { outcome: SessionOutcome::SpawnError },
            ActionView::CloseConnection,
        ),
        (
            StateView::Relaying { inbound_open, outbound_open, diag_open },
            EventView::LoopEnded { which, cause },
        ) => {
            let f = spec_close_loop(inbound_open, outbound_open, diag_open, which);
            let a = if network_side_ended(which, cause) {
                ActionView::TerminateProcess
            } else {
                ActionView::Continue
            };
            (
                StateView::Relaying { inbound_open: f.0, outbound_open: f.1, diag_open: f.2 },
                a,
            )
        },
        (
            StateView::Relaying { inbound_open, outbound_open, diag_open },
            EventView::ProcessExited,
        ) => {
            if !inbound_open && !outbound_open && !diag_open {
                (StateView::Closed { outcome: SessionOutcome::ProcessExited }, ActionView::Continue)
            } else {
                (
                    StateView::Draining { inbound_open, outbound_open, diag_open, wait_ok: true },
                    ActionView::Continue,
                )
            }
        },
        (StateView::Relaying { inbound_open, outbound_open, diag_open }, EventView::WaitFailed) => {
            if !inbound_open && !outbound_open && !diag_open {
                (
                    StateView::Closed { outcome: SessionOutcome::ProcessWaitError },
                    ActionView::TerminateProcess,
                )
            } else {
                (
                    StateView::Draining { inbound_open, outbound_open, diag_open, wait_ok: false },
                    ActionView::TerminateProcess,
                )
            }
        },
        (
            StateView::Draining { inbound_open, outbound_open, diag_open, wait_ok },
            EventView::LoopEnded { which, cause },
        ) => {
            let f = spec_close_loop(inbound_open, outbound_open, diag_open, which);
            if !f.0 && !f.1 && !f.2 {
                let outcome = if wait_ok {
                    SessionOutcome::ProcessExited
                } else {
                    SessionOutcome::ProcessWaitError
                };
                (StateView::Closed { outcome }, ActionView::Continue)
            } else {
                (
                    StateView::Draining {
                        inbound_open: f.0,
                        outbound_open: f.1,
                        diag_open: f.2,
                        wait_ok,
                    },
                    ActionView::Continue,
                )
            }
        },
        (StateView::Closed { outcome }, _) => (
            StateView::Closed { outcome },
            ActionView::Continue,
        ),
        (other, _) => (other, ActionView::Continue),
    }
}

fn close_loop(i: bool, o: bool, d: bool, which: LoopId) -> (r: (bool, bool, bool))
    ensures
        r == spec_close_loop(i, o, d, which),
{
    match which {
        LoopId::Inbound => (false, o, d),
        LoopId::Outbound => (i, false, d),
        LoopId::Diagnostics => (i, o, false),
    }
}

fn network_ended(which: LoopId, cause: EndCause) -> (r: bool)
    ensures
        r == network_side_ended(which, cause),
{
    match which {
        LoopId::Inbound => match cause {
            EndCause::SourceEof => true,
            EndCause::SourceError => true,
            EndCause::SinkError => false,
        },
        LoopId::Outbound => match cause {
            EndCause::SinkError => true,
            _ => false,
        },
        LoopId::Diagnostics => false,
    }
}

/// Performs one lifecycle transition; the executable mirror of `spec_step`.
pub fn session_step(state: SessionState, event: SessionEvent) -> (r: (
    SessionState,
    SessionAction,
))
    ensures
        r.0@ == spec_step(state@, event@).0,
        r.1@ == spec_step(state@, event@).1,
{
    match (state, event) {
        (SessionState::AwaitingHandshake, SessionEvent::HandshakeReceived { payload }) => {
            match decode_project(payload.as_slice()) {
                Some(p) => {
                    if p.is_valid() {
                        let q = p.clone();
                        (
                            SessionState::Launching { project: p },
                            SessionAction::Spawn { project: q },
                        )
                    } else {
                        (
                            SessionState::Closed { outcome: SessionOutcome::HandshakeError },
                            SessionAction::CloseConnection,
                        )
                    }
                },
                None => (
                    SessionState::Closed { outcome: SessionOutcome::HandshakeError },
                    SessionAction::CloseConnection,
                ),
            }
        },
        (SessionState::Launching { .. }, SessionEvent::SpawnSucceeded) => (
            SessionState::Relaying { inbound_open: true, outbound_open: true, diag_open: true },
            SessionAction::Continue,
        ),
        (SessionState::Launching { .. }, SessionEvent::SpawnFailed) => (
            SessionState::Closed { outcome: SessionOutcome::SpawnError },
            SessionAction::CloseConnection,
        ),
        (
            SessionState::Relaying { inbound_open, outbound_open, diag_open },
            SessionEvent::LoopEnded { which, cause },
        ) => {
            let f = close_loop(inbound_open, outbound_open, diag_open, which);
            let a = if network_ended(which, cause) {
                SessionAction::TerminateProcess
            } else {
                SessionAction::Continue
            };
            (
                SessionState::Relaying { inbound_open: f.0, outbound_open: f.1, diag_open: f.2 },
                a,
            )
        },
        (
            SessionState::Relaying { inbound_open, outbound_open, diag_open },
            SessionEvent::ProcessExited,
        ) => {
            if !inbound_open && !outbound_open && !diag_open {
                (
                    SessionState::Closed { outcome: SessionOutcome::ProcessExited },
                    SessionAction::Continue,
                )
            } else {
                (
                    SessionState::Draining {
                        inbound_open,
                        outbound_open,
                        diag_open,
                        wait_ok: true,
                    },
                    SessionAction::Continue,
                )
            }
        },
        (
            SessionState::Relaying { inbound_open, outbound_open, diag_open },
            SessionEvent::WaitFailed,
        ) => {
            if !inbound_open && !outbound_open && !diag_open {
                (
                    SessionState::Closed { outcome: SessionOutcome::ProcessWaitError },
                    SessionAction::TerminateProcess,
                )
            } else {
                (
                    SessionState::Draining {
                        inbound_open,
                        outbound_open,
                        diag_open,
                        wait_ok: false,
                    },
                    SessionAction::TerminateProcess,
                )
            }
        },
        (
            SessionState::Draining { inbound_open, outbound_open, diag_open, wait_ok },
            SessionEvent::LoopEnded { which, cause: _ },
        ) => {
            let f = close_loop(inbound_open, outbound_open, diag_open, which);
            if !f.0 && !f.1 && !f.2 {
                let outcome = if wait_ok {
                    SessionOutcome::ProcessExited
                } else {
                    SessionOutcome::ProcessWaitError
                };
                (SessionState::Closed { outcome }, SessionAction::Continue)
            } else {
                (
                    SessionState::Draining {
                        inbound_open: f.0,
                        outbound_open: f.1,
                        diag_open: f.2,
                        wait_ok,
                    },
                    SessionAction::Continue,
                )
            }
        },
        (SessionState::Closed { outcome }, _) => (
            SessionState::Closed { outcome },
            SessionAction::Continue,
        ),
        (other, _) => (other, SessionAction::Continue),
    }
}

/// The state after feeding a whole sequence of events, first event first.
pub open spec fn run_events(s: StateView, events: Seq<EventView>) -> StateView
    decreases events.len(),
{
    if events.len() == 0 {
        s
    } else {
        run_events(spec_step(s, events[0]).0, events.drop_first())
    }
}

/// A process is spawned only for a well-formed handshake that names a valid
/// descriptor (its command non-empty), and only from the handshake state;
/// on a malformed handshake the session closes with `HandshakeError` and
/// nothing is spawned, and on a spawn failure it closes with `SpawnError`.
pub proof fn lemma_spawn_gating(s: StateView, e: EventView)
    ensures
        spec_step(s, e).1 matches ActionView::Spawn { project } ==> {
            &&& s is AwaitingHandshake
            &&& e matches EventView::HandshakeReceived { payload } && spec_decode_project(payload)
                == Some(project)
            &&& project.valid()
            &&& spec_step(s, e).0 == (StateView::Launching { project })
        },
        s is AwaitingHandshake && (e matches EventView::HandshakeReceived { payload }
            && spec_decode_project(payload) is None) ==> spec_step(s, e).0 == (StateView::Closed {
            outcome: SessionOutcome::HandshakeError,
        }),
        s is Launching && e is SpawnFailed ==> spec_step(s, e).0 == (StateView::Closed {
            outcome: SessionOutcome::SpawnError,
        }),
{
}

/// Forwarding happens only after a successful spawn: a run that never sees
/// `SpawnSucceeded` never reaches `Relaying` or `Draining`.
pub proof fn lemma_no_forwarding_without_spawn(events: Seq<EventView>)
    requires
        forall|k: int| 0 <= k < events.len() ==> events[k] != EventView::SpawnSucceeded,
    ensures
        !(run_events(StateView::AwaitingHandshake, events) is Relaying),
        !(run_events(StateView::AwaitingHandshake, events) is Draining),
{
    lemma_pre_relay_run(StateView::AwaitingHandshake, events);
}

/// States reachable without a successful spawn.
pub open spec fn pre_relay(s: StateView) -> bool {
    s is AwaitingHandshake || s is Launching || s is Closed
}

proof fn lemma_pre_relay_run(s: StateView, events: Seq<EventView>)
    requires
        pre_relay(s),
        forall|k: int| 0 <= k < events.len() ==> events[k] != EventView::SpawnSucceeded,
    ensures
        pre_relay(run_events(s, events)),
    decreases events.len(),
{
    if events.len() > 0 {
        let next = spec_step(s, events[0]).0;
        assert(pre_relay(next));
        assert(forall|k: int|
            0 <= k < events.drop_first().len() ==> events.drop_first()[k]
                != EventView::SpawnSucceeded);
        lemma_pre_relay_run(next, events.drop_first());
    }
}

/// `Closed` is terminal: no event leaves it or changes its outcome.
pub proof fn lemma_closed_terminal(outcome: SessionOutcome, e: EventView)
    ensures
        spec_step(StateView::Closed { outcome }, e) == (
            StateView::Closed { outcome },
            ActionView::Continue,
        ),
{
}

/// While relaying, the end of a connection-side stream - the connection's
/// read half (inbound source) or write half (outbound sink) - makes the
/// relay terminate the process forcibly: a session never outlives its
/// connection, and no process is orphaned by a closed connection.
pub proof fn lemma_connection_close_terminates(s: StateView, which: LoopId, cause: EndCause)
    requires
        s is Relaying,
        network_side_ended(which, cause),
    ensures
        spec_step(s, EventView::LoopEnded { which, cause }).1 == ActionView::TerminateProcess,
{
}

/// The loop-end events still owed by `s`, in a fixed order.
pub open spec fn remaining_end_events(i: bool, o: bool, d: bool) -> Seq<EventView> {
    (if i {
        seq![EventView::LoopEnded { which: LoopId::Inbound, cause: EndCause::SourceEof }]
    } else {
        Seq::empty()
    }) + (if o {
        seq![EventView::LoopEnded { which: LoopId::Outbound, cause: EndCause::SourceEof }]
    } else {
        Seq::empty()
    }) + (if d {
        seq![EventView::LoopEnded { which: LoopId::Diagnostics, cause: EndCause::SourceEof }]
    } else {
        Seq::empty()
    })
}

/// How many forwarding loops are still open.
pub open spec fn open_count(s: StateView) -> int {
    match s {
        StateView::Relaying { inbound_open, outbound_open, diag_open } => (if inbound_open {
            1int
        } else {
            0int
        }) + (if outbound_open {
            1int
        } else {
            0int
        }) + (if diag_open {
            1int
        } else {
            0int
        }),
        StateView::Draining { inbound_open, outbound_open, diag_open, .. } => (if inbound_open {
            1int
        } else {
            0int
        }) + (if outbound_open {
            1int
        } else {
            0int
        }) + (if diag_open {
            1int
        } else {
            0int
        }),
        _ => 0,
    }
}

/// Whether the given loop is still open in `s`.
pub open spec fn loop_open(s: StateView, which: LoopId) -> bool {
    match s {
        StateView::Relaying { inbound_open, outbound_open, diag_open } => match which {
            LoopId::Inbound => inbound_open,
            LoopId::Outbound => outbound_open,
            LoopId::Diagnostics => diag_open,
        },
        StateView::Draining { inbound_open, outbound_open, diag_open, .. } => match which {
            LoopId::Inbound => inbound_open,
            LoopId::Outbound => outbound_open,
            LoopId::Diagnostics => diag_open,
        },
        _ => false,
    }
}

/// Draining never gets stuck, whatever order the loops end in: each end of
/// a still-open loop strictly lowers the open count, keeps the recorded
/// wait outcome, and the last one closes the session. Since the step
/// function only ever creates `Draining` states with at least one open
/// loop, the session reaches `Closed` after at most three loop-end events
/// once the process has terminated.
pub proof fn lemma_drain_progress(s: StateView, which: LoopId, cause: EndCause)
    requires
        s is Draining,
        loop_open(s, which),
    ensures
        ({
            let next = spec_step(s, EventView::LoopEnded { which, cause }).0;
            if open_count(s) == 1 {
                next matches StateView::Closed { outcome } && ((s matches StateView::Draining {
                    wait_ok,
                    ..
                } && outcome == (if wait_ok {
                    SessionOutcome::ProcessExited
                } else {
                    SessionOutcome::ProcessWaitError
                })))
            } else {
                next is Draining && open_count(next) == open_count(s) - 1 && (forall|w: LoopId|
                    loop_open(next, w) ==> loop_open(s, w)) && !loop_open(next, which)
            }
        }),
{
}

/// Every `Draining` state a session can reach has at least one loop open -
/// the property holds initially (a fresh session is not draining) and every
/// step preserves it - so `lemma_drain_progress` applies to each of them.
pub proof fn lemma_draining_states_have_open_loops(s: StateView, e: EventView)
    requires
        s is Draining ==> open_count(s) > 0,
    ensures
        spec_step(s, e).0 is Draining ==> open_count(spec_step(s, e).0) > 0,
{
}

/// Once the session is draining, ending each still-open loop in turn closes
/// the session, with the outcome recorded when draining began.
pub proof fn lemma_drain_runs_to_closed(i: bool, o: bool, d: bool, wait_ok: bool)
    requires
        i || o || d,
    ensures
        run_events(
            StateView::Draining { inbound_open: i, outbound_open: o, diag_open: d, wait_ok },
            remaining_end_events(i, o, d),
        ) == (StateView::Closed {
            outcome: if wait_ok {
                SessionOutcome::ProcessExited
            } else {
                SessionOutcome::ProcessWaitError
            },
        }),
    decreases (if i {
        1int
    } else {
        0int
    }) + (if o {
        1int
    } else {
        0int
    }) + (if d {
        1int
    } else {
        0int
    }),
{
    reveal_with_fuel(run_events, 3);
    let outcome = if wait_ok {
        SessionOutcome::ProcessExited
    } else {
        SessionOutcome::ProcessWaitError
    };
    let ev = remaining_end_events(i, o, d);
    let s0 = StateView::Draining { inbound_open: i, outbound_open: o, diag_open: d, wait_ok };
    if i {
        let e0 = EventView::LoopEnded { which: LoopId::Inbound, cause: EndCause::SourceEof };
        assert(ev[0] == e0);
        assert(ev.drop_first() =~= remaining_end_events(false, o, d));
        if o || d {
            let s1 = StateView::Draining {
                inbound_open: false,
                outbound_open: o,
                diag_open: d,
                wait_ok,
            };
            assert(spec_step(s0, e0).0 == s1);
            lemma_drain_runs_to_closed(false, o, d, wait_ok);
        } else {
            assert(spec_step(s0, e0).0 == (StateView::Closed { outcome }));
            assert(ev.drop_first() =~= Seq::<EventView>::empty());
        }
    } else if o {
        let e0 = EventView::LoopEnded { which: LoopId::Outbound, cause: EndCause::SourceEof };
        assert(ev[0] == e0);
        assert(ev.drop_first() =~= remaining_end_events(false, false, d));
        if d {
            let s1 = StateView::Draining {
                inbound_open: false,
                outbound_open: false,
                diag_open: d,
                wait_ok,
            };
            assert(spec_step(s0, e0).0 == s1);
            lemma_drain_runs_to_closed(false, false, d, wait_ok);
        } else {
            assert(spec_step(s0, e0).0 == (StateView::Closed { outcome }));
            assert(ev.drop_first() =~= Seq::<EventView>::empty());
        }
    } else {
        let e0 = EventView::LoopEnded { which: LoopId::Diagnostics, cause: EndCause::SourceEof };
        assert(ev[0] == e0);
        assert(spec_step(s0, e0).0 == (StateView::Closed { outcome }));
        assert(ev.drop_first() =~= Seq::<EventView>::empty());
    }
}

/// If the process exits while the connection is still open, the session
/// reaches `Closed` once each remaining loop observes end-of-stream - the
/// remote peer never has to close its side first.
pub proof fn lemma_process_exit_reaches_closed(i: bool, o: bool, d: bool)
    ensures
        run_events(
            StateView::Relaying { inbound_open: i, outbound_open: o, diag_open: d },
            seq![EventView::ProcessExited] + remaining_end_events(i, o, d),
        ) == (StateView::Closed { outcome: SessionOutcome::ProcessExited }),
{
    reveal_with_fuel(run_events, 3);
    let s0 = StateView::Relaying { inbound_open: i, outbound_open: o, diag_open: d };
    let ev = seq![EventView::ProcessExited] + remaining_end_events(i, o, d);
    assert(ev[0] == EventView::ProcessExited);
    assert(ev.drop_first() =~= remaining_end_events(i, o, d));
    if !i && !o && !d {
        assert(spec_step(s0, ev[0]).0 == (StateView::Closed {
            outcome: SessionOutcome::ProcessExited,
        }));
        assert(ev.drop_first() =~= Seq::<EventView>::empty());
    } else {
        assert(spec_step(s0, ev[0]).0 == (StateView::Draining {
            inbound_open: i,
            outbound_open: o,
            diag_open: d,
            wait_ok: true,
        }));
        lemma_drain_runs_to_closed(i, o, d, true);
    }
}

/// If the connection closes while relaying, the relay terminates the
/// process at once, and the session reaches `Closed` once the process's
/// exit is observed and the remaining loops end: no orphaned process and no
/// stuck session.
pub proof fn lemma_connection_close_reaches_closed(
    i: bool,
    o: bool,
    d: bool,
    which: LoopId,
    cause: EndCause,
)
    requires
        network_side_ended(which, cause),
    ensures
        spec_step(
            StateView::Relaying { inbound_open: i, outbound_open: o, diag_open: d },
            EventView::LoopEnded { which, cause },
        ).1 == ActionView::TerminateProcess,
        ({
            let f = spec_close_loop(i, o, d, which);
            run_events(
                StateView::Relaying { inbound_open: i, outbound_open: o, diag_open: d },
                seq![EventView::LoopEnded { which, cause }, EventView::ProcessExited]
                    + remaining_end_events(f.0, f.1, f.2),
            ) == (StateView::Closed { outcome: SessionOutcome::ProcessExited })
        }),
{
    reveal_with_fuel(run_events, 3);
    let s0 = StateView::Relaying { inbound_open: i, outbound_open: o, diag_open: d };
    let f = spec_close_loop(i, o, d, which);
    let e0 = EventView::LoopEnded { which, cause };
    let ev = seq![e0, EventView::ProcessExited] + remaining_end_events(f.0, f.1, f.2);
    let s1 = StateView::Relaying { inbound_open: f.0, outbound_open: f.1, diag_open: f.2 };
    assert(ev[0] == e0);
    assert(spec_step(s0, e0).0 == s1);
    assert(ev.drop_first() =~= seq![EventView::ProcessExited] + remaining_end_events(
        f.0,
        f.1,
        f.2,
    ));
    lemma_process_exit_reaches_closed(f.0, f.1, f.2);
}

} // verus!
