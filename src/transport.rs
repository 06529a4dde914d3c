use vstd::prelude::*;

verus! {

/// What the link to the server reported, as the client's handshake sees it.
#[derive(Clone, Copy, Debug, PartialEq, Eq, Structural)]
pub enum LinkEvent {
    /// The connection is open.
    Opened,
    /// A binary frame arrived.
    Binary,
    /// A frame of another kind arrived.
    NonBinary,
    /// The link reported an error.
    Failed,
    /// The connection closed.
    Closed,
    /// Nothing has arrived yet.
    Nothing,
}

/// Where the client's handshake stands: first the opened signal, then the
/// one binary frame that holds the snapshot.
#[derive(Clone, Copy, Debug, PartialEq, Eq, Structural)]
pub enum HandshakePhase {
    AwaitOpen,
    AwaitSnapshot,
}

/// Why a handshake failed.
#[derive(Clone, Copy, Debug, PartialEq, Eq, Structural)]
pub enum HandshakeError {
    /// A frame came before the opened signal.
    MessageBeforeOpen,
    /// The snapshot frame was not binary.
    NonBinary,
    /// The link reported an error.
    Failed,
    /// The connection closed.
    Closed,
}

/// What the client does next in its handshake.
#[derive(Clone, Copy, Debug, PartialEq, Eq, Structural)]
pub enum HandshakeStep {
    /// Keep waiting, in this phase.
    Wait(HandshakePhase),
    /// The frame that arrived is the snapshot: decode it.
    Snapshot,
    /// Give up.
    Fail(HandshakeError),
}

/// One step of the client's handshake: the phase it is in and what the
/// link reported decide what to do next.
pub fn handshake_step(p: HandshakePhase, e: LinkEvent) -> (r: HandshakeStep)
    ensures
        p is AwaitOpen && e is Opened ==> r == HandshakeStep::Wait(HandshakePhase::AwaitSnapshot),
        p is AwaitOpen && (e is Binary || e is NonBinary) ==> r == HandshakeStep::Fail(
            HandshakeError::MessageBeforeOpen,
        ),
        p is AwaitSnapshot && e is Binary ==> r is Snapshot,
        p is AwaitSnapshot && e is NonBinary ==> r == HandshakeStep::Fail(HandshakeError::NonBinary),
        p is AwaitSnapshot && e is Opened ==> r == HandshakeStep::Wait(p),
        e is Nothing ==> r == HandshakeStep::Wait(p),
        e is Failed ==> r == HandshakeStep::Fail(HandshakeError::Failed),
        e is Closed ==> r == HandshakeStep::Fail(HandshakeError::Closed),
{
    match e {
        LinkEvent::Nothing => HandshakeStep::Wait(p),
        LinkEvent::Failed => HandshakeStep::Fail(HandshakeError::Failed),
        LinkEvent::Closed => HandshakeStep::Fail(HandshakeError::Closed),
        LinkEvent::Opened => HandshakeStep::Wait(HandshakePhase::AwaitSnapshot),
        LinkEvent::Binary => match p {
            HandshakePhase::AwaitOpen => HandshakeStep::Fail(HandshakeError::MessageBeforeOpen),
            HandshakePhase::AwaitSnapshot => HandshakeStep::Snapshot,
        },
        LinkEvent::NonBinary => match p {
            HandshakePhase::AwaitOpen => HandshakeStep::Fail(HandshakeError::MessageBeforeOpen),
            HandshakePhase::AwaitSnapshot => HandshakeStep::Fail(HandshakeError::NonBinary),
        },
    }
}

/// What a non-blocking read from a peer gave.
#[derive(Clone, Copy, Debug, PartialEq, Eq, Structural)]
pub enum ReadOutcome {
    /// A binary frame.
    Frame,
    /// Nothing more this tick.
    WouldBlock,
    /// The peer is gone, or sent something that is not a binary frame.
    Gone,
}

/// What the server does after a read from a peer.
#[derive(Debug)]
pub enum PeerAction {
    /// Pass the frame on to these peers, then read again from the same one.
    Relay(Vec<usize>),
    /// Go on to the next peer.
    NextPeer,
    /// Drop the peer.
    Drop,
}

/// Every peer but `sender`, in order.
pub open spec fn others(n_peers: nat, sender: int) -> Seq<usize> {
    Seq::new(
        (n_peers - 1) as nat,
        |j: int|
            if j < sender {
                j as usize
            } else {
                (j + 1) as usize
            },
    )
}

/// The server's decision on one read from peer `sender` of `n_peers`: a
/// frame that applied goes to every other peer, a frame that did not apply
/// or a lost peer drops the peer, and a read that would block moves on.
pub fn on_read(n_peers: usize, sender: usize, outcome: ReadOutcome, applied: bool) -> (r: PeerAction)
    requires
        sender < n_peers,
    ensures
        outcome is Frame && applied ==> (r is Relay && r->Relay_0@ == others(
            n_peers as nat,
            sender as int,
        )),
        outcome is Frame && !applied ==> r is Drop,
        outcome is WouldBlock ==> r is NextPeer,
        outcome is Gone ==> r is Drop,
{
    match outcome {
        ReadOutcome::WouldBlock => PeerAction::NextPeer,
        ReadOutcome::Gone => PeerAction::Drop,
        ReadOutcome::Frame => {
            if !applied {
                return PeerAction::Drop;
            }
            let mut targets: Vec<usize> = Vec::new();
            let mut j: usize = 0;
            while j < n_peers
                invariant
                    sender < n_peers,
                    0 <= j <= n_peers,
                    targets@ == Seq::new(
                        (if j <= sender {
                            j as int
                        } else {
                            j - 1
                        }) as nat,
                        |k: int|
                            if k < sender {
                                k as usize
                            } else {
                                (k + 1) as usize
                            },
                    ),
                decreases n_peers - j,
            {
                if j != sender {
                    targets.push(j);
                }
                proof {
                    let c = if j + 1 <= sender {
                        j + 1
                    } else {
                        j as int
                    };
                    assert(targets@ =~= Seq::new(
                        c as nat,
                        |k: int|
                            if k < sender {
                                k as usize
                            } else {
                                (k + 1) as usize
                            },
                    ));
                }
                j = j + 1;
            }
            proof {
                assert(targets@ =~= others(n_peers as nat, sender as int));
            }
            PeerAction::Relay(targets)
        },
    }
}

} // verus!
