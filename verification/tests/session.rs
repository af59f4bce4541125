use dev_env::channels::{Destination, RelayChannels};
use dev_env::codec::encode_project;
use dev_env::proto::Project;
use dev_env::relay::{
    session_step, EndCause, LoopId, SessionAction, SessionEvent, SessionOutcome, SessionState,
};

fn project(root: &str, command: &str, args: &[&str]) -> Project {
    Project::new(
        root.to_string(),
        command.to_string(),
        args.iter().map(|a| a.to_string()).collect(),
    )
}

fn handshake(p: &Project) -> SessionEvent {
    SessionEvent::HandshakeReceived { payload: encode_project(p) }
}

fn end(which: LoopId, cause: EndCause) -> SessionEvent {
    SessionEvent::LoopEnded { which, cause }
}

#[test]
fn valid_handshake_launches_the_named_descriptor() {
    let p = project("/a", "server", &["--stdio"]);
    let (state, action) = session_step(SessionState::AwaitingHandshake, handshake(&p));
    match state {
        SessionState::Launching { project } => {
            assert_eq!(project.root, "/a");
            assert_eq!(project.command, "server");
            assert_eq!(project.args, vec!["--stdio".to_string()]);
        },
        _ => panic!("a valid handshake must move to Launching"),
    }
    match action {
        SessionAction::Spawn { project } => assert_eq!(project.command, "server"),
        _ => panic!("a valid handshake must request a spawn"),
    }
}

#[test]
fn malformed_handshake_closes_without_spawning() {
    // Truncated record: the session ends with HandshakeError, the
    // connection is dropped, and no spawn is ever requested.
    let truncated = SessionEvent::HandshakeReceived {
        payload: br#"{"root":"/a","comma"#.to_vec(),
    };
    let (state, action) = session_step(SessionState::AwaitingHandshake, truncated);
    assert!(matches!(
        state,
        SessionState::Closed { outcome: SessionOutcome::HandshakeError }
    ));
    assert!(matches!(action, SessionAction::CloseConnection));
}

#[test]
fn empty_first_read_closes_without_spawning() {
    let ev = SessionEvent::HandshakeReceived { payload: vec![] };
    let (state, action) = session_step(SessionState::AwaitingHandshake, ev);
    assert!(matches!(
        state,
        SessionState::Closed { outcome: SessionOutcome::HandshakeError }
    ));
    assert!(matches!(action, SessionAction::CloseConnection));
}

#[test]
fn empty_command_is_never_launched() {
    let p = project("/a", "", &[]);
    let (state, action) = session_step(SessionState::AwaitingHandshake, handshake(&p));
    assert!(matches!(
        state,
        SessionState::Closed { outcome: SessionOutcome::HandshakeError }
    ));
    assert!(!matches!(action, SessionAction::Spawn { .. }));
}

#[test]
fn spawn_failure_closes_with_spawn_error() {
    let s = SessionState::Launching { project: project("/a", "missing", &[]) };
    let (state, action) = session_step(s, SessionEvent::SpawnFailed);
    assert!(matches!(
        state,
        SessionState::Closed { outcome: SessionOutcome::SpawnError }
    ));
    assert!(matches!(action, SessionAction::CloseConnection));
}

#[test]
fn spawn_success_starts_all_three_loops() {
    let s = SessionState::Launching { project: project("/a", "server", &[]) };
    let (state, action) = session_step(s, SessionEvent::SpawnSucceeded);
    assert!(matches!(
        state,
        SessionState::Relaying { inbound_open: true, outbound_open: true, diag_open: true }
    ));
    assert!(matches!(action, SessionAction::Continue));
}

fn relaying_all_open() -> SessionState {
    SessionState::Relaying { inbound_open: true, outbound_open: true, diag_open: true }
}

#[test]
fn process_exit_then_drain_reaches_closed() {
    // The process exits before the connection closes: the session reaches
    // Closed without the remote peer having to close first.
    let (s1, _) = session_step(relaying_all_open(), SessionEvent::ProcessExited);
    assert!(matches!(s1, SessionState::Draining { wait_ok: true, .. }));
    let (s2, _) = session_step(s1, end(LoopId::Inbound, EndCause::SinkError));
    let (s3, _) = session_step(s2, end(LoopId::Outbound, EndCause::SourceEof));
    let (s4, a4) = session_step(s3, end(LoopId::Diagnostics, EndCause::SourceEof));
    assert!(matches!(
        s4,
        SessionState::Closed { outcome: SessionOutcome::ProcessExited }
    ));
    assert!(matches!(a4, SessionAction::Continue));
}

#[test]
fn drain_order_does_not_matter() {
    let (s1, _) = session_step(relaying_all_open(), SessionEvent::ProcessExited);
    let (s2, _) = session_step(s1, end(LoopId::Diagnostics, EndCause::SourceEof));
    let (s3, _) = session_step(s2, end(LoopId::Outbound, EndCause::SourceEof));
    let (s4, _) = session_step(s3, end(LoopId::Inbound, EndCause::SourceEof));
    assert!(matches!(
        s4,
        SessionState::Closed { outcome: SessionOutcome::ProcessExited }
    ));
}

#[test]
fn connection_close_terminates_the_process() {
    // The remote peer closes the connection while the process still runs:
    // the relay must terminate the process (no orphans) and the session
    // reaches Closed once the exit is observed and the loops end.
    let (s1, a1) = session_step(relaying_all_open(), end(LoopId::Inbound, EndCause::SourceEof));
    assert!(matches!(a1, SessionAction::TerminateProcess));
    assert!(matches!(s1, SessionState::Relaying { inbound_open: false, .. }));
    let (s2, _) = session_step(s1, SessionEvent::ProcessExited);
    let (s3, _) = session_step(s2, end(LoopId::Outbound, EndCause::SourceEof));
    let (s4, _) = session_step(s3, end(LoopId::Diagnostics, EndCause::SourceEof));
    assert!(matches!(
        s4,
        SessionState::Closed { outcome: SessionOutcome::ProcessExited }
    ));
}

#[test]
fn connection_write_failure_also_terminates() {
    let (_, action) = session_step(relaying_all_open(), end(LoopId::Outbound, EndCause::SinkError));
    assert!(matches!(action, SessionAction::TerminateProcess));
}

#[test]
fn process_side_end_does_not_terminate() {
    // The process closing its own stdin pipe is not a network failure.
    let (_, a1) = session_step(relaying_all_open(), end(LoopId::Inbound, EndCause::SinkError));
    assert!(matches!(a1, SessionAction::Continue));
    let (_, a2) = session_step(relaying_all_open(), end(LoopId::Outbound, EndCause::SourceEof));
    assert!(matches!(a2, SessionAction::Continue));
    let (_, a3) = session_step(relaying_all_open(), end(LoopId::Diagnostics, EndCause::SourceError));
    assert!(matches!(a3, SessionAction::Continue));
}

#[test]
fn wait_failure_forces_termination_and_is_reported() {
    let (s1, a1) = session_step(relaying_all_open(), SessionEvent::WaitFailed);
    assert!(matches!(a1, SessionAction::TerminateProcess));
    assert!(matches!(s1, SessionState::Draining { wait_ok: false, .. }));
    let (s2, _) = session_step(s1, end(LoopId::Inbound, EndCause::SourceEof));
    let (s3, _) = session_step(s2, end(LoopId::Outbound, EndCause::SourceEof));
    let (s4, _) = session_step(s3, end(LoopId::Diagnostics, EndCause::SourceEof));
    assert!(matches!(
        s4,
        SessionState::Closed { outcome: SessionOutcome::ProcessWaitError }
    ));
}

#[test]
fn closed_is_terminal() {
    let closed = SessionState::Closed { outcome: SessionOutcome::ProcessExited };
    let (state, action) = session_step(closed, SessionEvent::SpawnSucceeded);
    assert!(matches!(
        state,
        SessionState::Closed { outcome: SessionOutcome::ProcessExited }
    ));
    assert!(matches!(action, SessionAction::Continue));
}

#[test]
fn inbound_bytes_reach_the_process_unchanged() {
    let mut ch = RelayChannels::new();
    let (out1, d1) = ch.forward_inbound(b"hello ".to_vec());
    let (out2, d2) = ch.forward_inbound(b"world".to_vec());
    assert_eq!(out1, b"hello ".to_vec());
    assert_eq!(out2, b"world".to_vec());
    assert!(matches!(d1, Destination::ProcessStdin));
    assert!(matches!(d2, Destination::ProcessStdin));
}

#[test]
fn outbound_bytes_reach_the_peer_unchanged() {
    let mut ch = RelayChannels::new();
    let (out, dest) = ch.forward_outbound(vec![0, 1, 2, 255]);
    assert_eq!(out, vec![0, 1, 2, 255]);
    assert!(matches!(dest, Destination::RemotePeer));
}

#[test]
fn stderr_goes_to_the_diagnostic_sink_not_the_peer() {
    let mut ch = RelayChannels::new();
    let (line, dest) = ch.forward_diagnostic(b"warning: x\n".to_vec());
    assert_eq!(line, b"warning: x\n".to_vec());
    assert!(matches!(dest, Destination::DiagnosticSink));
    assert!(!matches!(dest, Destination::RemotePeer));
}

#[test]
fn echo_round_trip_through_both_directions() {
    // A process that echoes stdin to stdout: what the peer sent inbound is
    // exactly what the relay hands the process, and what the process wrote
    // is exactly what goes back to the peer.
    let mut ch = RelayChannels::new();
    let sent: Vec<u8> = (0u16..512).map(|b| (b % 256) as u8).collect();
    let (to_proc, _) = ch.forward_inbound(sent.clone());
    assert_eq!(to_proc, sent);
    let (to_peer, dest) = ch.forward_outbound(to_proc);
    assert_eq!(to_peer, sent);
    assert!(matches!(dest, Destination::RemotePeer));
}
