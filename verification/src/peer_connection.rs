//! The handshake with a peer: the greeting, and the steps from an unopened
//! stream to a verified peer. The library decides; its caller opens the
//! stream, writes and reads, and reports what happened.

use vstd::prelude::*;
use vstd::slice::slice_subrange;
use vstd::string::StringSliceAdditionalSpecFns;
use crate::order::bytes_equal;

verus! {

/// The length of a greeting in bytes.
pub const HANDSHAKE_LEN: usize = 68;

/// Why a handshake failed.
#[derive(Debug, PartialEq, Eq)]
pub enum PeerError {
    /// Opening the stream, writing or reading failed; the text says how.
    Io(String),
    /// The peer's greeting does not start as a greeting does.
    InvalidHandshake,
    /// The handshake took too long.
    Timeout,
    /// The peer closed the stream before its greeting was complete.
    ConnectionClosed,
}

/// Where a handshake stands.
#[derive(Debug, PartialEq, Eq)]
pub enum HandshakeState {
    /// The stream is being opened.
    Connecting,
    /// The stream is open; nothing was sent yet.
    Connected,
    /// The greeting is being written.
    Sending,
    /// The greeting is written; these bytes of the peer's greeting are here,
    /// fewer than 68.
    AwaitingReply(Vec<u8>),
    /// The peer's greeting is complete and starts as a greeting does.
    Verified,
    /// The handshake failed.
    Failed(PeerError),
}

/// What happened on the stream.
#[derive(Debug, PartialEq, Eq)]
pub enum HandshakeEvent {
    /// The stream is open.
    Opened,
    /// The handshake is to begin.
    Begin,
    /// The greeting is written in full.
    Sent,
    /// A read gave these bytes; none means that the peer closed the stream.
    Received(Vec<u8>),
    /// Opening, writing or reading failed.
    IoFailed(String),
    /// The time for the handshake is over.
    TimedOut,
}

/// What is to be done on the stream next.
#[derive(Debug, PartialEq, Eq)]
pub enum HandshakeAction {
    /// Open the stream.
    Connect,
    /// Nothing, until the handshake is to begin.
    Idle,
    /// Write these bytes in full.
    Send(Vec<u8>),
    /// Read, at most this many bytes.
    Receive(usize),
    /// Nothing more: the handshake is over.
    Finish,
}

/// A failure as plain mathematical values.
pub enum PeerErrorView {
    Io(Seq<char>),
    InvalidHandshake,
    Timeout,
    ConnectionClosed,
}

/// A state as plain mathematical values.
pub enum StateView {
    Connecting,
    Connected,
    Sending,
    AwaitingReply(Seq<u8>),
    Verified,
    Failed(PeerErrorView),
}

/// An event as plain mathematical values.
pub enum EventView {
    Opened,
    Begin,
    Sent,
    Received(Seq<u8>),
    IoFailed(Seq<char>),
    TimedOut,
}

/// An action as plain mathematical values.
pub enum ActionView {
    Connect,
    Idle,
    Send(Seq<u8>),
    Receive(usize),
    Finish,
}

impl View for PeerError {
    type V = PeerErrorView;

    open spec fn view(&self) -> PeerErrorView {
        match self {
            PeerError::Io(message) => PeerErrorView::Io(message@),
            PeerError::InvalidHandshake => PeerErrorView::InvalidHandshake,
            PeerError::Timeout => PeerErrorView::Timeout,
            PeerError::ConnectionClosed => PeerErrorView::ConnectionClosed,
        }
    }
}

impl View for HandshakeState {
    type V = StateView;

    open spec fn view(&self) -> StateView {
        match self {
            HandshakeState::Connecting => StateView::Connecting,
            HandshakeState::Connected => StateView::Connected,
            HandshakeState::Sending => StateView::Sending,
            HandshakeState::AwaitingReply(received) => StateView::AwaitingReply(received@),
            HandshakeState::Verified => StateView::Verified,
            HandshakeState::Failed(e) => StateView::Failed(e@),
        }
    }
}

impl View for HandshakeEvent {
    type V = EventView;

    open spec fn view(&self) -> EventView {
        match self {
            HandshakeEvent::Opened => EventView::Opened,
            HandshakeEvent::Begin => EventView::Begin,
            HandshakeEvent::Sent => EventView::Sent,
            HandshakeEvent::Received(bytes) => EventView::Received(bytes@),
            HandshakeEvent::IoFailed(message) => EventView::IoFailed(message@),
            HandshakeEvent::TimedOut => EventView::TimedOut,
        }
    }
}

impl View for HandshakeAction {
    type V = ActionView;

    open spec fn view(&self) -> ActionView {
        match self {
            HandshakeAction::Connect => ActionView::Connect,
            HandshakeAction::Idle => ActionView::Idle,
            HandshakeAction::Send(bytes) => ActionView::Send(bytes@),
            HandshakeAction::Receive(most) => ActionView::Receive(*most),
            HandshakeAction::Finish => ActionView::Finish,
        }
    }
}

/// The 19 bytes that name the protocol.
pub open spec fn protocol_label() -> Seq<u8> {
    "BitTorrent protocol".spec_bytes()
}

/// The greeting: the length of the label, the label, 8 reserved bytes of
/// zero, the content identifier, the peer identifier.
pub open spec fn greeting(info_hash: Seq<u8>, peer_id: Seq<u8>) -> Seq<u8> {
    seq![19u8] + protocol_label() + Seq::new(8, |i: int| 0u8) + info_hash + peer_id
}

/// A peer's greeting is good: it is 68 bytes, the first is 19, and the next
/// 19 are the label. The bytes behind them are not looked at.
pub open spec fn reply_is_valid(reply: Seq<u8>) -> bool {
    &&& reply.len() == 68
    &&& reply[0] == 19
    &&& reply.subrange(1, 20) == protocol_label()
}

/// The state that receiving `bytes` leads to, with `received` already there.
/// No bytes mean that the peer closed the stream. Bytes past the 68th are
/// left out.
pub open spec fn after_receiving(received: Seq<u8>, bytes: Seq<u8>) -> StateView {
    if bytes.len() == 0 {
        StateView::Failed(PeerErrorView::ConnectionClosed)
    } else if received.len() + bytes.len() < 68 {
        StateView::AwaitingReply(received + bytes)
    } else if reply_is_valid((received + bytes).subrange(0, 68)) {
        StateView::Verified
    } else {
        StateView::Failed(PeerErrorView::InvalidHandshake)
    }
}

/// The state that an event leads to. An event that a state does not wait for
/// changes nothing, and nothing changes a handshake that is over.
pub open spec fn next_state(state: StateView, event: EventView) -> StateView {
    match (state, event) {
        (StateView::Connecting, EventView::Opened) => StateView::Connected,
        (StateView::Connecting, EventView::IoFailed(message)) => StateView::Failed(
            PeerErrorView::Io(message),
        ),
        (StateView::Connected, EventView::Begin) => StateView::Sending,
        (StateView::Sending, EventView::Sent) => StateView::AwaitingReply(Seq::empty()),
        (StateView::Sending, EventView::IoFailed(message)) => StateView::Failed(
            PeerErrorView::Io(message),
        ),
        (StateView::Sending, EventView::TimedOut) => StateView::Failed(PeerErrorView::Timeout),
        (StateView::AwaitingReply(received), EventView::Received(bytes)) => after_receiving(
            received,
            bytes,
        ),
        (StateView::AwaitingReply(_), EventView::IoFailed(message)) => StateView::Failed(
            PeerErrorView::Io(message),
        ),
        (StateView::AwaitingReply(_), EventView::TimedOut) => StateView::Failed(
            PeerErrorView::Timeout,
        ),
        (state, _) => state,
    }
}

/// What is to be done in a state.
pub open spec fn action_of(state: StateView, info_hash: Seq<u8>, peer_id: Seq<u8>) -> ActionView {
    match state {
        StateView::Connecting => ActionView::Connect,
        StateView::Connected => ActionView::Idle,
        StateView::Sending => ActionView::Send(greeting(info_hash, peer_id)),
        StateView::AwaitingReply(received) => if received.len() < 68 {
            ActionView::Receive((68 - received.len()) as usize)
        } else {
            ActionView::Receive(0)
        },
        StateView::Verified => ActionView::Finish,
        StateView::Failed(_) => ActionView::Finish,
    }
}

/// The label is 19 bytes, and a greeting 68.
pub proof fn lemma_greeting_len(info_hash: Seq<u8>, peer_id: Seq<u8>)
    requires
        info_hash.len() == 20,
        peer_id.len() == 20,
    ensures
        protocol_label().len() == 19,
        greeting(info_hash, peer_id).len() == 68,
        greeting(info_hash, peer_id)[0] == 19,
        greeting(info_hash, peer_id).subrange(1, 20) == protocol_label(),
        greeting(info_hash, peer_id).subrange(28, 48) == info_hash,
        greeting(info_hash, peer_id).subrange(48, 68) == peer_id,
{
    reveal_strlit("BitTorrent protocol");
    let label = "BitTorrent protocol";
    assert(vstd::string::is_ascii(label));
    vstd::string::is_ascii_spec_bytes(label);
    let g = greeting(info_hash, peer_id);
    assert(g.subrange(1, 20) =~= protocol_label());
    assert(g.subrange(28, 48) =~= info_hash);
    assert(g.subrange(48, 68) =~= peer_id);
}

/// A greeting is a good greeting, whatever the identifiers are.
pub proof fn lemma_greeting_is_valid(info_hash: Seq<u8>, peer_id: Seq<u8>)
    requires
        info_hash.len() == 20,
        peer_id.len() == 20,
    ensures
        reply_is_valid(greeting(info_hash, peer_id)),
{
    lemma_greeting_len(info_hash, peer_id);
}

/// Whether a greeting is good depends on its first 20 bytes alone: two
/// greetings of 68 bytes that start with the same 20 bytes are both good or
/// both not.
pub proof fn lemma_validity_looks_at_20_bytes(first: Seq<u8>, second: Seq<u8>)
    requires
        first.len() == 68,
        second.len() == 68,
        first.subrange(0, 20) == second.subrange(0, 20),
    ensures
        reply_is_valid(first) == reply_is_valid(second),
{
    assert(first[0] == first.subrange(0, 20)[0]);
    assert(second[0] == second.subrange(0, 20)[0]);
    assert(first.subrange(1, 20) =~= first.subrange(0, 20).subrange(1, 20));
    assert(second.subrange(1, 20) =~= second.subrange(0, 20).subrange(1, 20));
}

/// A handshake is verified only by the bytes that complete a good greeting
/// of 68 bytes: no other event, and no shorter greeting, verifies it.
pub proof fn lemma_verified_only_by_full_greeting(state: StateView, event: EventView)
    requires
        !(state is Verified),
        next_state(state, event) is Verified,
    ensures
        state is AwaitingReply,
        event is Received,
        state->AwaitingReply_0.len() + event->Received_0.len() >= 68,
        reply_is_valid((state->AwaitingReply_0 + event->Received_0).subrange(0, 68)),
{
}

/// A peer that closes the stream before its greeting is complete fails the
/// handshake, however many bytes it had sent.
pub proof fn lemma_close_before_complete_fails(received: Seq<u8>)
    ensures
        next_state(StateView::AwaitingReply(received), EventView::Received(Seq::empty()))
            == StateView::Failed(PeerErrorView::ConnectionClosed),
{
}

/// The greeting to send to a peer.
pub fn handshake_message(info_hash: &[u8; 20], peer_id: &[u8; 20]) -> (message: Vec<u8>)
    ensures
        message@ == greeting(info_hash@, peer_id@),
        message@.len() == 68,
{
    let mut message: Vec<u8> = Vec::new();
    message.push(19);
    push_all(&mut message, "BitTorrent protocol".as_bytes());
    let mut i: usize = 0;
    while i < 8
        invariant
            i <= 8,
            message@ == seq![19u8] + protocol_label() + Seq::new(i as nat, |k: int| 0u8),
        decreases 8 - i,
    {
        message.push(0);
        i = i + 1;
        proof {
            assert(message@ =~= seq![19u8] + protocol_label() + Seq::new(i as nat, |k: int| 0u8));
        }
    }
    push_all(&mut message, info_hash.as_slice());
    push_all(&mut message, peer_id.as_slice());
    proof {
        lemma_greeting_len(info_hash@, peer_id@);
    }
    message
}

/// Appends `bytes` to `out`.
fn push_all(out: &mut Vec<u8>, bytes: &[u8])
    ensures
        final(out)@ == old(out)@ + bytes@,
{
    let mut i: usize = 0;
    while i < bytes.len()
        invariant
            i <= bytes@.len(),
            out@ == old(out)@ + bytes@.subrange(0, i as int),
        decreases bytes@.len() - i,
    {
        out.push(bytes[i]);
        i = i + 1;
        proof {
            assert(out@ =~= old(out)@ + bytes@.subrange(0, i as int));
        }
    }
    proof {
        assert(bytes@.subrange(0, i as int) =~= bytes@);
    }
}

/// Whether a peer's greeting is good: 68 bytes that start with 19 and the
/// label. Neither the reserved bytes nor the identifiers are looked at.
pub fn verify_reply(reply: &[u8]) -> (r: Result<(), PeerError>)
    ensures
        r is Ok <==> reply_is_valid(reply@),
        r is Err ==> r->Err_0@ == PeerErrorView::InvalidHandshake,
{
    if reply.len() != HANDSHAKE_LEN || reply[0] != 19 {
        return Err(PeerError::InvalidHandshake);
    }
    if bytes_equal(slice_subrange(reply, 1, 20), "BitTorrent protocol".as_bytes()) {
        Ok(())
    } else {
        Err(PeerError::InvalidHandshake)
    }
}

/// A handshake with one peer: the two identifiers and where it stands.
#[derive(Debug)]
pub struct Handshake {
    peer_id: [u8; 20],
    info_hash: [u8; 20],
    state: HandshakeState,
}

impl Handshake {
    /// The peer identifier that the greeting carries.
    pub closed spec fn peer_id(&self) -> Seq<u8> {
        self.peer_id@
    }

    /// The content identifier that the greeting carries.
    pub closed spec fn info_hash(&self) -> Seq<u8> {
        self.info_hash@
    }

    /// Where the handshake stands.
    pub closed spec fn state(&self) -> StateView {
        self.state@
    }

    /// A handshake for the content `info_hash`, as the peer `peer_id`, with
    /// the stream still to be opened.
    pub fn new(info_hash: [u8; 20], peer_id: [u8; 20]) -> (r: Self)
        ensures
            r.state() == StateView::Connecting,
            r.info_hash() == info_hash@,
            r.peer_id() == peer_id@,
    {
        Handshake { peer_id, info_hash, state: HandshakeState::Connecting }
    }

    /// What is to be done on the stream next.
    pub fn action(&self) -> (r: HandshakeAction)
        ensures
            r@ == action_of(self.state(), self.info_hash(), self.peer_id()),
    {
        match &self.state {
            HandshakeState::Connecting => HandshakeAction::Connect,
            HandshakeState::Connected => HandshakeAction::Idle,
            HandshakeState::Sending => HandshakeAction::Send(
                handshake_message(&self.info_hash, &self.peer_id),
            ),
            HandshakeState::AwaitingReply(received) => if received.len() < 68 {
                HandshakeAction::Receive(68 - received.len())
            } else {
                HandshakeAction::Receive(0)
            },
            HandshakeState::Verified => HandshakeAction::Finish,
            HandshakeState::Failed(_) => HandshakeAction::Finish,
        }
    }

    /// Takes an event in, and moves to the state that it leads to.
    pub fn on_event(self, event: HandshakeEvent) -> (r: Self)
        ensures
            r.state() == next_state(self.state(), event@),
            r.info_hash() == self.info_hash(),
            r.peer_id() == self.peer_id(),
    {
        let Handshake { peer_id, info_hash, state } = self;
        let state = step(state, event);
        Handshake { peer_id, info_hash, state }
    }

    /// Whether the peer is verified.
    pub fn is_verified(&self) -> (r: bool)
        ensures
            r == (self.state() is Verified),
    {
        match &self.state {
            HandshakeState::Verified => true,
            _ => false,
        }
    }

    /// How the handshake ended: nothing while it is going on, else success
    /// or the failure.
    pub fn outcome(self) -> (r: Option<Result<(), PeerError>>)
        ensures
            match r {
                None => !(self.state() is Verified) && !(self.state() is Failed),
                Some(Ok(())) => self.state() is Verified,
                Some(Err(e)) => self.state() == StateView::Failed(e@),
            },
    {
        match self.state {
            HandshakeState::Verified => Some(Ok(())),
            HandshakeState::Failed(e) => Some(Err(e)),
            _ => None,
        }
    }
}

/// The state with the bytes of one read taken in.
fn receive(received: Vec<u8>, bytes: Vec<u8>) -> (r: HandshakeState)
    ensures
        r@ == after_receiving(received@, bytes@),
{
    if bytes.len() == 0 {
        return HandshakeState::Failed(PeerError::ConnectionClosed);
    }
    let mut all = received;
    let ghost before = all@;
    let mut i: usize = 0;
    while i < bytes.len() && all.len() < HANDSHAKE_LEN
        invariant
            i <= bytes@.len(),
            all@ == (before + bytes@).subrange(0, all@.len() as int),
            all@.len() == before.len() + i,
        decreases bytes@.len() - i,
    {
        all.push(bytes[i]);
        i = i + 1;
        proof {
            assert(all@ =~= (before + bytes@).subrange(0, all@.len() as int));
        }
    }
    if all.len() < HANDSHAKE_LEN {
        proof {
            assert(all@ =~= before + bytes@);
        }
        return HandshakeState::AwaitingReply(all);
    }
    proof {
        assert(all@.subrange(0, 68) =~= (before + bytes@).subrange(0, 68));
    }
    match verify_reply(slice_subrange(all.as_slice(), 0, HANDSHAKE_LEN)) {
        Ok(()) => HandshakeState::Verified,
        Err(e) => HandshakeState::Failed(e),
    }
}

/// The state that an event leads to.
pub fn step(state: HandshakeState, event: HandshakeEvent) -> (r: HandshakeState)
    ensures
        r@ == next_state(state@, event@),
{
    match state {
        HandshakeState::Connecting => match event {
            HandshakeEvent::Opened => HandshakeState::Connected,
            HandshakeEvent::IoFailed(message) => HandshakeState::Failed(PeerError::Io(message)),
            _ => HandshakeState::Connecting,
        },
        HandshakeState::Connected => match event {
            HandshakeEvent::Begin => HandshakeState::Sending,
            _ => HandshakeState::Connected,
        },
        HandshakeState::Sending => match event {
            HandshakeEvent::Sent => HandshakeState::AwaitingReply(Vec::new()),
            HandshakeEvent::IoFailed(message) => HandshakeState::Failed(PeerError::Io(message)),
            HandshakeEvent::TimedOut => HandshakeState::Failed(PeerError::Timeout),
            _ => HandshakeState::Sending,
        },
        HandshakeState::AwaitingReply(received) => match event {
            HandshakeEvent::Received(bytes) => receive(received, bytes),
            HandshakeEvent::IoFailed(message) => HandshakeState::Failed(PeerError::Io(message)),
            HandshakeEvent::TimedOut => HandshakeState::Failed(PeerError::Timeout),
            _ => HandshakeState::AwaitingReply(received),
        },
        HandshakeState::Verified => HandshakeState::Verified,
        HandshakeState::Failed(e) => HandshakeState::Failed(e),
    }
}

} // verus!
