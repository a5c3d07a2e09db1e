//! A direct peer: where it is reached, the session with it, and the one
//! message that may wait for that session to be established.

use vstd::prelude::*;
use crate::bytes::{bytes_equal, lemma_be_bytes_len};
use crate::codec::{encode, frame_bytes, MAX_PAYLOAD_LEN};
use crate::identity::{address_of, Address, PrivateIdentity, PublicKey};
use crate::label::{encode_path, SwitchLabel};
use crate::packet::{encode_packet, packet_bytes, Handshake, HandshakeView, Packet, PacketView};
use crate::packet::{DATA_HEADER_LEN, HANDSHAKE_LEN};
use crate::session::{handshake_from, Session, SessionState, SessionView};

verus! {

/// Where datagrams for a peer are sent: an IP address, as sixteen bytes, and a
/// UDP port.
#[derive(Clone, Copy, Debug, Eq)]
pub struct Endpoint {
    pub address: [u8; 16],
    pub port: u16,
}

impl PartialEq for Endpoint {
    fn eq(&self, other: &Endpoint) -> (same: bool) {
        self.port == other.port && bytes_equal(self.address.as_slice(), other.address.as_slice())
    }
}

impl vstd::std_specs::cmp::PartialEqSpecImpl for Endpoint {
    open spec fn obeys_eq_spec() -> bool {
        true
    }

    open spec fn eq_spec(&self, other: &Endpoint) -> bool {
        self.address@ == other.address@ && self.port == other.port
    }
}

/// Endpoints with the same bytes and port are the same endpoint.
pub proof fn lemma_same_endpoint(a: Endpoint, b: Endpoint)
    ensures
        (a.address@ == b.address@ && a.port == b.port) <==> a == b,
{
    if a.address@ == b.address@ {
        assert(a.address =~= b.address);
    }
}

/// What the dispatcher asks the outside to do.
#[derive(Debug)]
pub enum Action {
    /// Send `bytes` as one datagram to `to`.
    SendDatagram { to: Endpoint, bytes: Vec<u8> },
    /// Write `0` to the tunnel device as one IP packet.
    WriteTun(Vec<u8>),
}

/// An action as plain values.
pub enum ActionView {
    SendDatagram { to: Endpoint, bytes: Seq<u8> },
    WriteTun(Seq<u8>),
}

impl View for Action {
    type V = ActionView;

    open spec fn view(&self) -> ActionView {
        match self {
            Action::SendDatagram { to, bytes } => ActionView::SendDatagram {
                to: *to,
                bytes: bytes@,
            },
            Action::WriteTun(packet) => ActionView::WriteTun(packet@),
        }
    }
}

/// What an optional action is as plain values.
pub open spec fn action_view(action: Option<Action>) -> Option<ActionView> {
    match action {
        Some(a) => Some(a@),
        None => None,
    }
}

/// A message that waits for a session, with the label it is to travel on.
pub struct PendingView {
    pub path: Seq<u8>,
    pub plaintext: Seq<u8>,
}

/// A peer as plain values.
pub struct PeerView {
    pub endpoint: Endpoint,
    /// The address that the peer's long-term key certifies.
    pub address: Seq<u8>,
    pub session: SessionView,
    pub pending: Option<PendingView>,
}

/// The frame of a data packet, where it fits into one.
pub open spec fn data_frame(path: Seq<u8>, nonce: u64, sealed: Seq<u8>) -> Option<Seq<u8>> {
    if DATA_HEADER_LEN + sealed.len() <= MAX_PAYLOAD_LEN {
        Some(frame_bytes(path, packet_bytes(PacketView::Data { nonce, sealed })))
    } else {
        None
    }
}

/// The frame of a handshake: it travels no further than the direct peer.
pub open spec fn handshake_frame(h: HandshakeView) -> Seq<u8> {
    frame_bytes(Seq::<u8>::empty(), packet_bytes(PacketView::Handshake(h)))
}

impl PeerView {
    /// The peer before anything happened.
    pub open spec fn fresh(endpoint: Endpoint, key: Seq<u8>, now: u64) -> PeerView {
        PeerView {
            endpoint,
            address: address_of(key),
            session: SessionView::fresh(key, now),
            pending: None,
        }
    }

    /// Our handshake to this peer, as a datagram.
    pub open spec fn greeting(self, local: PrivateIdentity, entropy: Seq<u8>) -> ActionView {
        ActionView::SendDatagram {
            to: self.endpoint,
            bytes: handshake_frame(handshake_from(local, self.session.peer_key, entropy)),
        }
    }

    /// Opening a session with this peer before there is anything to send: our
    /// handshake goes out where nothing has happened yet or the session has
    /// expired, and nothing happens else.
    pub open spec fn greeted(self, local: PrivateIdentity, now: u64, entropy: Seq<u8>) -> (
        PeerView,
        Option<ActionView>,
    ) {
        if self.session.state is Uninitiated || self.session.state is Expired {
            (
                PeerView { session: self.session.after_start(local, entropy, now), ..self },
                Some(self.greeting(local, entropy)),
            )
        } else {
            (self, None)
        }
    }

    /// Sealing `plaintext` for this peer and framing it for `path`. The label
    /// bytes are bound to the seal. Where the session cannot seal, nothing
    /// happens; what is sealed but too long for a frame is dropped.
    pub open spec fn sent(self, path: Seq<u8>, plaintext: Seq<u8>, now: u64) -> (
        PeerView,
        Option<ActionView>,
    ) {
        match self.session.sealed_by(encode_path(path), plaintext) {
            None => (self, None),
            Some(sealed) => (
                PeerView {
                    session: self.session.after_seal(encode_path(path), plaintext, now),
                    ..self
                },
                match data_frame(path, self.session.send_nonce, sealed) {
                    Some(bytes) => Some(ActionView::SendDatagram { to: self.endpoint, bytes }),
                    None => None,
                },
            ),
        }
    }

    /// Handing this peer a message to carry along `path`. Over an established
    /// session it goes at once. While our handshake is out it waits, in place
    /// of whatever waited before. Else our handshake goes out, and the message
    /// waits for the answer.
    pub open spec fn handed(
        self,
        local: PrivateIdentity,
        path: Seq<u8>,
        plaintext: Seq<u8>,
        now: u64,
        entropy: Seq<u8>,
    ) -> (PeerView, Option<ActionView>) {
        if self.session.state is Established {
            self.sent(path, plaintext, now)
        } else if self.session.state is HandshakeSent {
            (PeerView { pending: Some(PendingView { path, plaintext }), ..self }, None)
        } else {
            let started = self.session.after_start(local, entropy, now);
            (
                PeerView {
                    session: started,
                    pending: if started.state is HandshakeSent {
                        Some(PendingView { path, plaintext })
                    } else {
                        None
                    },
                    ..self
                },
                Some(self.greeting(local, entropy)),
            )
        }
    }

    /// The peer's handshake arrived. One that the session does not take
    /// changes nothing. Where ours was out, the session is established and
    /// what waited goes; else ours goes out in answer, which establishes it.
    pub open spec fn shook(
        self,
        local: PrivateIdentity,
        h: HandshakeView,
        now: u64,
        entropy: Seq<u8>,
    ) -> (PeerView, Option<ActionView>) {
        if !self.session.accepts_handshake(local, h) {
            (self, None)
        } else {
            let got = self.session.after_handshake(local, h, now);
            if got.state is Established {
                let ready = PeerView { session: got, pending: None, ..self };
                match self.pending {
                    None => (ready, None),
                    Some(p) => ready.sent(p.path, p.plaintext, now),
                }
            } else {
                (
                    PeerView {
                        session: got.after_start(local, entropy, now),
                        pending: None,
                        ..self
                    },
                    Some(self.greeting(local, entropy)),
                )
            }
        }
    }

    /// A sealed packet arrived: the session takes note of it where it opens.
    pub open spec fn opened(self, aad: Seq<u8>, nonce: u64, sealed: Seq<u8>, now: u64) -> PeerView {
        PeerView { session: self.session.after_open(aad, nonce, sealed, now), ..self }
    }

    /// The clock was looked at: an idle session expires, and what waited for
    /// it is dropped.
    pub open spec fn ticked(self, now: u64, timeout: u64) -> PeerView {
        PeerView {
            session: self.session.after_tick(now, timeout),
            pending: if self.session.is_idle(now, timeout) {
                None
            } else {
                self.pending
            },
            ..self
        }
    }
}

struct Pending {
    label: SwitchLabel,
    plaintext: Vec<u8>,
}

/// A direct peer.
pub struct Peer {
    endpoint: Endpoint,
    address: Address,
    session: Session,
    pending: Option<Pending>,
}

impl View for Peer {
    type V = PeerView;

    closed spec fn view(&self) -> PeerView {
        PeerView {
            endpoint: self.endpoint,
            address: self.address@,
            session: self.session@,
            pending: match self.pending {
                Some(p) => Some(PendingView { path: p.label@, plaintext: p.plaintext@ }),
                None => None,
            },
        }
    }
}

/// Frames a data packet, where it fits into a frame.
fn frame_data(label: &SwitchLabel, nonce: u64, sealed: Vec<u8>) -> (frame: Option<Vec<u8>>)
    requires
        label.wf(),
    ensures
        frame is Some <==> data_frame(label@, nonce, sealed@) is Some,
        frame matches Some(bytes) ==> data_frame(label@, nonce, sealed@) == Some(bytes@),
{
    let ghost sealed_bytes = sealed@;
    let packet = Packet::Data { nonce, sealed };
    let payload = encode_packet(&packet);
    proof {
        lemma_be_bytes_len(nonce as nat, 8);
        assert(payload@.len() == DATA_HEADER_LEN + sealed_bytes.len());
    }
    encode(label, payload.as_slice())
}

/// Frames a handshake.
fn frame_handshake(h: Handshake) -> (frame: Vec<u8>)
    ensures
        frame@ == handshake_frame(h@),
{
    let payload = encode_packet(&Packet::Handshake(h));
    assert(payload@.len() == HANDSHAKE_LEN);
    let label = SwitchLabel::empty();
    match encode(&label, payload.as_slice()) {
        Some(bytes) => bytes,
        None => Vec::new(),
    }
}

impl Peer {
    /// What waits is to travel on a label.
    pub closed spec fn wf(&self) -> bool {
        self.pending matches Some(p) ==> p.label.wf()
    }

    /// A peer at `endpoint` that holds `key`, with which nothing has happened.
    pub fn new(endpoint: Endpoint, key: PublicKey, now: u64) -> (peer: Peer)
        ensures
            peer.wf(),
            peer@ == PeerView::fresh(endpoint, key@, now),
    {
        Peer { endpoint, address: key.address(), session: Session::new(key, now), pending: None }
    }

    /// The address that the peer's long-term key certifies.
    pub fn address(&self) -> (address: Address)
        ensures
            address@ == self@.address,
    {
        self.address
    }

    pub fn endpoint(&self) -> (endpoint: Endpoint)
        ensures
            endpoint == self@.endpoint,
    {
        self.endpoint
    }

    pub fn state(&self) -> (state: SessionState)
        ensures
            state == self@.session.state,
    {
        self.session.state()
    }

    /// The session with this peer.
    pub fn session(&self) -> (session: &Session)
        ensures
            session@ == self@.session,
    {
        &self.session
    }

    /// Seals `plaintext` and frames it for `label`.
    pub fn send(&mut self, label: &SwitchLabel, plaintext: &[u8], now: u64) -> (action: Option<
        Action,
    >)
        requires
            old(self).wf(),
            label.wf(),
        ensures
            final(self).wf(),
            (final(self)@, action_view(action)) == old(self)@.sent(label@, plaintext@, now),
    {
        let aad = label.to_bytes();
        match self.session.seal(aad.as_slice(), plaintext, now) {
            None => None,
            Some((nonce, sealed)) => {
                match frame_data(label, nonce, sealed) {
                    Some(bytes) => Some(Action::SendDatagram { to: self.endpoint, bytes }),
                    None => None,
                }
            },
        }
    }

    /// Sends our handshake, with `entropy` as the session secret, where the
    /// session has not begun or has expired.
    pub fn greet(&mut self, local: &PrivateIdentity, now: u64, entropy: [u8; 32]) -> (action:
        Option<Action>)
        requires
            old(self).wf(),
        ensures
            final(self).wf(),
            (final(self)@, action_view(action)) == old(self)@.greeted(*local, now, entropy@),
    {
        match self.session.state() {
            SessionState::Uninitiated | SessionState::Expired => {
                match self.session.start_handshake(local, entropy, now) {
                    None => None,
                    Some(h) => Some(
                        Action::SendDatagram { to: self.endpoint, bytes: frame_handshake(h) },
                    ),
                }
            },
            _ => None,
        }
    }

    /// Hands the peer a message to carry along `label`, with `entropy` as the
    /// session secret should our handshake have to go out.
    pub fn hand(
        &mut self,
        local: &PrivateIdentity,
        label: SwitchLabel,
        plaintext: Vec<u8>,
        now: u64,
        entropy: [u8; 32],
    ) -> (action: Option<Action>)
        requires
            old(self).wf(),
            label.wf(),
        ensures
            final(self).wf(),
            (final(self)@, action_view(action)) == old(self)@.handed(
                *local,
                label@,
                plaintext@,
                now,
                entropy@,
            ),
    {
        match self.session.state() {
            SessionState::Established => self.send(&label, plaintext.as_slice(), now),
            SessionState::HandshakeSent => {
                self.pending = Some(Pending { label, plaintext });
                None
            },
            _ => {
                match self.session.start_handshake(local, entropy, now) {
                    None => None,
                    Some(h) => {
                        match self.session.state() {
                            SessionState::HandshakeSent => {
                                self.pending = Some(Pending { label, plaintext });
                            },
                            _ => {
                                self.pending = None;
                            },
                        }
                        Some(Action::SendDatagram { to: self.endpoint, bytes: frame_handshake(h) })
                    },
                }
            },
        }
    }

    /// Takes the peer's handshake, with `entropy` as the session secret should
    /// ours have to go out in answer.
    pub fn shake(
        &mut self,
        local: &PrivateIdentity,
        h: &Handshake,
        now: u64,
        entropy: [u8; 32],
    ) -> (action: Option<Action>)
        requires
            old(self).wf(),
        ensures
            final(self).wf(),
            (final(self)@, action_view(action)) == old(self)@.shook(*local, h@, now, entropy@),
    {
        if !self.session.receive_handshake(local, h, now) {
            return None;
        }
        let waiting = self.pending.take();
        match self.session.state() {
            SessionState::Established => {
                match waiting {
                    None => None,
                    Some(p) => self.send(&p.label, p.plaintext.as_slice(), now),
                }
            },
            _ => {
                match self.session.start_handshake(local, entropy, now) {
                    None => None,
                    Some(ours) => Some(
                        Action::SendDatagram { to: self.endpoint, bytes: frame_handshake(ours) },
                    ),
                }
            },
        }
    }

    /// Opens a sealed packet from the peer that came with label bytes `aad`.
    pub fn open(&mut self, aad: &[u8], nonce: u64, sealed: &[u8], now: u64) -> (plaintext: Option<
        Vec<u8>,
    >)
        requires
            old(self).wf(),
        ensures
            final(self).wf(),
            final(self)@ == old(self)@.opened(aad@, nonce, sealed@, now),
            plaintext is Some <==> old(self)@.session.opened_by(aad@, nonce, sealed@) is Some,
            plaintext matches Some(p) ==> old(self)@.session.opened_by(aad@, nonce, sealed@)
                == Some(p@),
            plaintext is None ==> final(self)@ == old(self)@,
    {
        self.session.open(aad, nonce, sealed, now)
    }

    /// Looks at the clock.
    pub fn tick(&mut self, now: u64, timeout: u64) -> (expired: bool)
        requires
            old(self).wf(),
        ensures
            final(self).wf(),
            final(self)@ == old(self)@.ticked(now, timeout),
            expired == old(self)@.session.is_idle(now, timeout),
    {
        let expired = self.session.expire_if_idle(now, timeout);
        if expired {
            self.pending = None;
        }
        expired
    }
}

} // verus!
