use sync_arena::transport::{
    handshake_step, on_read, HandshakeError, HandshakePhase, HandshakeStep, LinkEvent, PeerAction,
    ReadOutcome,
};

#[test]
fn handshake_waits_for_open_then_one_binary_frame() {
    let p = HandshakePhase::AwaitOpen;
    assert_eq!(handshake_step(p, LinkEvent::Nothing), HandshakeStep::Wait(HandshakePhase::AwaitOpen));
    assert_eq!(handshake_step(p, LinkEvent::Opened), HandshakeStep::Wait(HandshakePhase::AwaitSnapshot));
    let q = HandshakePhase::AwaitSnapshot;
    assert_eq!(handshake_step(q, LinkEvent::Binary), HandshakeStep::Snapshot);
    assert_eq!(handshake_step(q, LinkEvent::Opened), HandshakeStep::Wait(q));
}

#[test]
fn handshake_failures() {
    let p = HandshakePhase::AwaitOpen;
    let q = HandshakePhase::AwaitSnapshot;
    assert_eq!(handshake_step(p, LinkEvent::Binary), HandshakeStep::Fail(HandshakeError::MessageBeforeOpen));
    assert_eq!(handshake_step(q, LinkEvent::NonBinary), HandshakeStep::Fail(HandshakeError::NonBinary));
    assert_eq!(handshake_step(q, LinkEvent::Failed), HandshakeStep::Fail(HandshakeError::Failed));
    assert_eq!(handshake_step(p, LinkEvent::Closed), HandshakeStep::Fail(HandshakeError::Closed));
}

#[test]
fn server_relays_an_applied_frame_to_every_other_peer() {
    match on_read(4, 1, ReadOutcome::Frame, true) {
        PeerAction::Relay(t) => assert_eq!(t, vec![0, 2, 3]),
        _ => panic!("an applied frame is relayed"),
    }
    match on_read(1, 0, ReadOutcome::Frame, true) {
        PeerAction::Relay(t) => assert!(t.is_empty()),
        _ => panic!("an applied frame is relayed"),
    }
}

#[test]
fn server_drops_or_moves_on() {
    assert!(matches!(on_read(3, 0, ReadOutcome::Frame, false), PeerAction::Drop));
    assert!(matches!(on_read(3, 2, ReadOutcome::Gone, false), PeerAction::Drop));
    assert!(matches!(on_read(3, 2, ReadOutcome::WouldBlock, false), PeerAction::NextPeer));
}
