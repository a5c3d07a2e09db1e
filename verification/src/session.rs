//! The session with one direct peer: the handshake that establishes it, the
//! sealing and opening of traffic, and its end by inactivity.

use vstd::prelude::*;
use crate::bytes::{append_range, be_bytes, be_encode, bytes_equal};
use crate::crypto::{aead_open, aead_opened, aead_seal, aead_sealed, random_seed, sha512};
use crate::crypto::{sha512_of, x25519, x25519_of};
use crate::identity::{base_point, public_key_of, PrivateIdentity, PublicKey, KEY_LEN};
use crate::packet::{Handshake, HandshakeView};
use crate::replay::{refused_after, ReplayWindow};

verus! {

/// Set in front of the digest input that makes a handshake tag.
pub const TAG_DOMAIN: u8 = 1;

/// Set in front of the digest input that makes a traffic key.
pub const KEY_DOMAIN: u8 = 2;

/// Where a session stands.
#[derive(Clone, Copy, Debug, PartialEq, Eq, Structural)]
pub enum SessionState {
    /// Nothing was sent or received yet.
    Uninitiated,
    /// Our handshake is out, the peer's has not come.
    HandshakeSent,
    /// The peer's handshake came, ours has not gone out.
    HandshakeReceived,
    /// Both handshakes are through and the traffic keys stand.
    Established,
    /// The session lay idle too long and its keys are gone.
    Expired,
}

/// `n` zero bytes.
pub open spec fn zeros(n: nat) -> Seq<u8> {
    Seq::new(n, |i: int| 0u8)
}

/// The first thirty-two bytes of the digest of `kind` and four strings.
pub open spec fn digest32(kind: u8, a: Seq<u8>, b: Seq<u8>, c: Seq<u8>, d: Seq<u8>) -> Seq<u8> {
    sha512_of(seq![kind] + a + b + c + d).take(32)
}

/// The tag that fits a handshake from `sender` to `receiver`, made with the
/// secret that only their two long-term keys agree on.
pub open spec fn handshake_tag(
    secret: Seq<u8>,
    sender: Seq<u8>,
    receiver: Seq<u8>,
    ephemeral: Seq<u8>,
) -> Seq<u8> {
    digest32(TAG_DOMAIN, secret, sender, receiver, ephemeral)
}

/// The key that seals traffic from `from` to `to`, made from the secrets that
/// the session keys and the long-term keys agree on.
pub open spec fn traffic_key(
    session_secret: Seq<u8>,
    long_term_secret: Seq<u8>,
    from: Seq<u8>,
    to: Seq<u8>,
) -> Seq<u8> {
    digest32(KEY_DOMAIN, session_secret + long_term_secret, from, to, Seq::<u8>::empty())
}

/// The twelve bytes that the cipher gets for the `counter`-th packet.
pub open spec fn nonce_bytes(counter: u64) -> Seq<u8> {
    zeros(4) + be_bytes(counter as nat, 8)
}

/// The handshake that `local` sends to the holder of `peer_key` when it has
/// drawn `ephemeral_secret` for the session.
pub open spec fn handshake_from(
    local: PrivateIdentity,
    peer_key: Seq<u8>,
    ephemeral_secret: Seq<u8>,
) -> HandshakeView {
    HandshakeView {
        sender: local.spec_public_key()@,
        ephemeral: public_key_of(ephemeral_secret),
        tag: handshake_tag(
            x25519_of(local.spec_private_key()@, peer_key),
            local.spec_public_key()@,
            peer_key,
            public_key_of(ephemeral_secret),
        ),
    }
}

/// A session as plain values.
pub struct SessionView {
    pub state: SessionState,
    /// The peer's long-term key.
    pub peer_key: Seq<u8>,
    /// Our secret for this session; zeros while none is drawn.
    pub my_ephemeral: Seq<u8>,
    /// The peer's public key for this session; zeros while none has come.
    pub peer_ephemeral: Seq<u8>,
    /// Seals what we send; zeros unless established.
    pub send_key: Seq<u8>,
    /// Opens what the peer sends; zeros unless established.
    pub recv_key: Seq<u8>,
    /// The nonce of the next packet we send.
    pub send_nonce: u64,
    /// The nonces that we refuse from the peer.
    pub refused: Set<u64>,
    /// When the session last moved or carried traffic.
    pub last_activity: u64,
}

impl SessionView {
    /// The session with the holder of `peer_key` before anything happened.
    pub open spec fn fresh(peer_key: Seq<u8>, now: u64) -> SessionView {
        SessionView {
            state: SessionState::Uninitiated,
            peer_key,
            my_ephemeral: zeros(32),
            peer_ephemeral: zeros(32),
            send_key: zeros(32),
            recv_key: zeros(32),
            send_nonce: 0,
            refused: Set::<u64>::empty(),
            last_activity: now,
        }
    }

    /// The session once both session keys are known.
    pub open spec fn established(
        self,
        local: PrivateIdentity,
        my_ephemeral: Seq<u8>,
        peer_ephemeral: Seq<u8>,
        now: u64,
    ) -> SessionView {
        let session_secret = x25519_of(my_ephemeral, peer_ephemeral);
        let long_term_secret = x25519_of(local.spec_private_key()@, self.peer_key);
        SessionView {
            state: SessionState::Established,
            peer_key: self.peer_key,
            my_ephemeral,
            peer_ephemeral,
            send_key: traffic_key(
                session_secret,
                long_term_secret,
                local.spec_public_key()@,
                self.peer_key,
            ),
            recv_key: traffic_key(
                session_secret,
                long_term_secret,
                self.peer_key,
                local.spec_public_key()@,
            ),
            send_nonce: 0,
            refused: Set::<u64>::empty(),
            last_activity: now,
        }
    }

    /// Whether we may send a handshake now: we have none out and none answered.
    pub open spec fn can_start(self) -> bool {
        self.state is Uninitiated || self.state is Expired || self.state is HandshakeReceived
    }

    /// The session after we sent our handshake, where we may.
    pub open spec fn after_start(
        self,
        local: PrivateIdentity,
        ephemeral_secret: Seq<u8>,
        now: u64,
    ) -> SessionView {
        if self.state is HandshakeReceived {
            self.established(local, ephemeral_secret, self.peer_ephemeral, now)
        } else if self.can_start() {
            SessionView {
                state: SessionState::HandshakeSent,
                my_ephemeral: ephemeral_secret,
                last_activity: now,
                ..SessionView::fresh(self.peer_key, now)
            }
        } else {
            self
        }
    }

    /// Whether handshake `h` is taken: the session waits for one, it names the
    /// peer of this session as its sender, and its tag fits.
    pub open spec fn accepts_handshake(self, local: PrivateIdentity, h: HandshakeView) -> bool {
        &&& self.state is Uninitiated || self.state is Expired || self.state is HandshakeSent
        &&& h.sender == self.peer_key
        &&& h.tag == handshake_tag(
            x25519_of(local.spec_private_key()@, self.peer_key),
            self.peer_key,
            local.spec_public_key()@,
            h.ephemeral,
        )
    }

    /// The session after handshake `h` arrived: unchanged where `h` is not taken.
    pub open spec fn after_handshake(
        self,
        local: PrivateIdentity,
        h: HandshakeView,
        now: u64,
    ) -> SessionView {
        if !self.accepts_handshake(local, h) {
            self
        } else if self.state is HandshakeSent {
            self.established(local, self.my_ephemeral, h.ephemeral, now)
        } else {
            SessionView {
                state: SessionState::HandshakeReceived,
                peer_ephemeral: h.ephemeral,
                last_activity: now,
                ..SessionView::fresh(self.peer_key, now)
            }
        }
    }

    /// What `plaintext` is sealed to, where the session can seal at all.
    pub open spec fn sealed_by(self, aad: Seq<u8>, plaintext: Seq<u8>) -> Option<Seq<u8>> {
        if self.state is Established && self.send_nonce < u64::MAX {
            aead_sealed(self.send_key, nonce_bytes(self.send_nonce), aad, plaintext)
        } else {
            None
        }
    }

    /// The session after sealing: the nonce is spent only where sealing worked.
    pub open spec fn after_seal(self, aad: Seq<u8>, plaintext: Seq<u8>, now: u64) -> SessionView {
        if self.sealed_by(aad, plaintext) is Some {
            SessionView { send_nonce: (self.send_nonce + 1) as u64, last_activity: now, ..self }
        } else {
            self
        }
    }

    /// What the packet with `nonce` opens to, where the session takes it at all.
    pub open spec fn opened_by(self, aad: Seq<u8>, nonce: u64, sealed: Seq<u8>) -> Option<
        Seq<u8>,
    > {
        if self.state is Established && !self.refused.contains(nonce) {
            aead_opened(self.recv_key, nonce_bytes(nonce), aad, sealed)
        } else {
            None
        }
    }

    /// The session after a packet arrived: unchanged where the packet is dropped.
    pub open spec fn after_open(
        self,
        aad: Seq<u8>,
        nonce: u64,
        sealed: Seq<u8>,
        now: u64,
    ) -> SessionView {
        if self.opened_by(aad, nonce, sealed) is Some {
            SessionView {
                refused: refused_after(self.refused, nonce),
                last_activity: now,
                ..self
            }
        } else {
            self
        }
    }

    /// Whether the session has lain idle for `timeout` or longer.
    pub open spec fn is_idle(self, now: u64, timeout: u64) -> bool {
        &&& !(self.state is Uninitiated)
        &&& !(self.state is Expired)
        &&& now >= self.last_activity
        &&& now - self.last_activity >= timeout
    }

    /// The session after the clock was looked at: expired, its keys gone, where
    /// it has lain idle.
    pub open spec fn after_tick(self, now: u64, timeout: u64) -> SessionView {
        if self.is_idle(now, timeout) {
            SessionView {
                state: SessionState::Expired,
                last_activity: self.last_activity,
                ..SessionView::fresh(self.peer_key, now)
            }
        } else {
            self
        }
    }
}

/// The session with one direct peer.
#[derive(Clone, Copy, Debug)]
pub struct Session {
    state: SessionState,
    peer_key: PublicKey,
    my_ephemeral: [u8; 32],
    peer_ephemeral: [u8; 32],
    send_key: [u8; 32],
    recv_key: [u8; 32],
    send_nonce: u64,
    window: ReplayWindow,
    last_activity: u64,
}

impl View for Session {
    type V = SessionView;

    closed spec fn view(&self) -> SessionView {
        SessionView {
            state: self.state,
            peer_key: self.peer_key@,
            my_ephemeral: self.my_ephemeral@,
            peer_ephemeral: self.peer_ephemeral@,
            send_key: self.send_key@,
            recv_key: self.recv_key@,
            send_nonce: self.send_nonce,
            refused: self.window@,
            last_activity: self.last_activity,
        }
    }
}

/// The first thirty-two bytes of the SHA-512 digest of `kind` and four strings.
fn hash32(kind: u8, a: &[u8], b: &[u8], c: &[u8], d: &[u8]) -> (out: [u8; 32])
    ensures
        out@ == digest32(kind, a@, b@, c@, d@),
{
    let mut input: Vec<u8> = Vec::new();
    input.push(kind);
    append_range(&mut input, a, 0, a.len());
    append_range(&mut input, b, 0, b.len());
    append_range(&mut input, c, 0, c.len());
    append_range(&mut input, d, 0, d.len());
    proof {
        assert(a@.subrange(0, a@.len() as int) =~= a@);
        assert(b@.subrange(0, b@.len() as int) =~= b@);
        assert(c@.subrange(0, c@.len() as int) =~= c@);
        assert(d@.subrange(0, d@.len() as int) =~= d@);
        assert(input@ =~= seq![kind] + a@ + b@ + c@ + d@);
    }
    let digest = sha512(input.as_slice());
    crate::bytes::array_at::<32>(digest.as_slice(), 0)
}

/// The public key that belongs to a session secret.
fn ephemeral_public(secret: &[u8; 32]) -> (public: [u8; 32])
    ensures
        public@ == public_key_of(secret@),
{
    let mut base: [u8; 32] = [0u8; 32];
    base[0] = 9;
    assert(base@ =~= base_point());
    x25519(secret, &base)
}

/// The twelve nonce bytes of the `counter`-th packet.
fn nonce_for(counter: u64) -> (nonce: [u8; 12])
    ensures
        nonce@ == nonce_bytes(counter),
{
    let tail = be_encode(counter as u128, 8);
    let mut nonce: [u8; 12] = [0u8; 12];
    let mut i: usize = 0;
    while i < 8
        invariant
            i <= 8,
            tail@.len() == 8,
            forall|k: int| 0 <= k < 4 ==> nonce@[k] == 0,
            forall|k: int| 0 <= k < i ==> nonce@[4 + k] == tail@[k],
        decreases 8 - i,
    {
        nonce[4 + i] = tail[i];
        i += 1;
    }
    assert(nonce@ =~= nonce_bytes(counter));
    nonce
}

impl Session {
    /// A session with the holder of `peer_key` in which nothing has happened.
    pub fn new(peer_key: PublicKey, now: u64) -> (session: Session)
        ensures
            session@ == SessionView::fresh(peer_key@, now),
    {
        let session = Session {
            state: SessionState::Uninitiated,
            peer_key,
            my_ephemeral: [0u8; 32],
            peer_ephemeral: [0u8; 32],
            send_key: [0u8; 32],
            recv_key: [0u8; 32],
            send_nonce: 0,
            window: ReplayWindow::new(),
            last_activity: now,
        };
        proof {
            assert(session.my_ephemeral@ =~= zeros(32));
            assert(session@.refused =~= Set::<u64>::empty());
        }
        session
    }

    pub fn state(&self) -> (state: SessionState)
        ensures
            state == self@.state,
    {
        self.state
    }

    pub fn peer_key(&self) -> (key: PublicKey)
        ensures
            key@ == self@.peer_key,
    {
        self.peer_key
    }

    /// Whether our handshake may be sent now.
    pub fn can_start(&self) -> (may: bool)
        ensures
            may == self@.can_start(),
    {
        match self.state {
            SessionState::HandshakeSent | SessionState::Established => false,
            _ => true,
        }
    }

    /// Whether traffic can be sealed and opened.
    pub fn is_established(&self) -> (established: bool)
        ensures
            established == (self@.state is Established),
    {
        match self.state {
            SessionState::Established => true,
            _ => false,
        }
    }

    /// The key that seals what we send; zeros unless established.
    pub fn send_key(&self) -> (key: [u8; 32])
        ensures
            key@ == self@.send_key,
    {
        self.send_key
    }

    /// The key that opens what the peer sends; zeros unless established.
    pub fn recv_key(&self) -> (key: [u8; 32])
        ensures
            key@ == self@.recv_key,
    {
        self.recv_key
    }

    pub fn last_activity(&self) -> (at: u64)
        ensures
            at == self@.last_activity,
    {
        self.last_activity
    }

    /// Forgets every key and every nonce and leaves the session in `state`.
    fn reset(&mut self, state: SessionState, now: u64)
        ensures
            final(self)@ == (SessionView {
                state,
                ..SessionView::fresh(old(self)@.peer_key, now)
            }),
    {
        self.state = state;
        self.my_ephemeral = [0u8; 32];
        self.peer_ephemeral = [0u8; 32];
        self.send_key = [0u8; 32];
        self.recv_key = [0u8; 32];
        self.send_nonce = 0;
        self.window = ReplayWindow::new();
        self.last_activity = now;
        proof {
            assert(self.my_ephemeral@ =~= zeros(32));
        }
    }

    /// Derives both traffic keys from the two session keys and the two
    /// long-term keys, and opens the session for traffic.
    fn establish(
        &mut self,
        local: &PrivateIdentity,
        my_ephemeral: [u8; 32],
        peer_ephemeral: [u8; 32],
        now: u64,
    )
        ensures
            final(self)@ == old(self)@.established(*local, my_ephemeral@, peer_ephemeral@, now),
    {
        let session_secret = x25519(&my_ephemeral, &peer_ephemeral);
        let long_term_secret = x25519(&local.private_key().bytes, &self.peer_key.bytes);
        let mut secrets: Vec<u8> = Vec::new();
        append_range(&mut secrets, session_secret.as_slice(), 0, KEY_LEN);
        append_range(&mut secrets, long_term_secret.as_slice(), 0, KEY_LEN);
        proof {
            assert(secrets@ =~= session_secret@ + long_term_secret@);
        }
        let ours = local.public_key();
        let none: [u8; 0] = [];
        assert(none@ =~= Seq::<u8>::empty());
        self.send_key =
        hash32(
            KEY_DOMAIN,
            secrets.as_slice(),
            ours.bytes.as_slice(),
            self.peer_key.bytes.as_slice(),
            none.as_slice(),
        );
        self.recv_key =
        hash32(
            KEY_DOMAIN,
            secrets.as_slice(),
            self.peer_key.bytes.as_slice(),
            ours.bytes.as_slice(),
            none.as_slice(),
        );
        self.state = SessionState::Established;
        self.my_ephemeral = my_ephemeral;
        self.peer_ephemeral = peer_ephemeral;
        self.send_nonce = 0;
        self.window = ReplayWindow::new();
        self.last_activity = now;
    }

    /// Sends our handshake with `ephemeral_secret` as the secret of this
    /// session, where one may be sent: at the start, after expiry, or in answer
    /// to the peer's. In answer to the peer's it establishes the session.
    pub fn start_handshake(
        &mut self,
        local: &PrivateIdentity,
        ephemeral_secret: [u8; 32],
        now: u64,
    ) -> (sent: Option<Handshake>)
        ensures
            final(self)@ == old(self)@.after_start(*local, ephemeral_secret@, now),
            sent is Some <==> old(self)@.can_start(),
            sent matches Some(h) ==> h@ == handshake_from(
                *local,
                old(self)@.peer_key,
                ephemeral_secret@,
            ),
    {
        match self.state {
            SessionState::HandshakeSent | SessionState::Established => {
                return None;
            },
            SessionState::HandshakeReceived => {
                let theirs = self.peer_ephemeral;
                self.establish(local, ephemeral_secret, theirs, now);
            },
            SessionState::Uninitiated | SessionState::Expired => {
                self.reset(SessionState::HandshakeSent, now);
                self.my_ephemeral = ephemeral_secret;
            },
        }
        let ours = local.public_key();
        let ephemeral = ephemeral_public(&ephemeral_secret);
        let secret = x25519(&local.private_key().bytes, &self.peer_key.bytes);
        let tag = hash32(
            TAG_DOMAIN,
            secret.as_slice(),
            ours.bytes.as_slice(),
            self.peer_key.bytes.as_slice(),
            ephemeral.as_slice(),
        );
        Some(Handshake { sender: ours, ephemeral, tag })
    }

    /// Draws a secret for the session from the system's random source and
    /// sends our handshake with it. Without randomness nothing changes.
    pub fn initiate(&mut self, local: &PrivateIdentity, now: u64) -> (sent: Result<
        Option<Handshake>,
        NoRandomness,
    >)
        ensures
            sent is Err ==> *final(self) == *old(self),
            sent matches Ok(out) ==> exists|secret: Seq<u8>|
                {
                    &&& #[trigger] old(self)@.after_start(*local, secret, now) == final(self)@
                    &&& out is Some <==> old(self)@.can_start()
                    &&& out matches Some(h) ==> h@ == handshake_from(
                        *local,
                        old(self)@.peer_key,
                        secret,
                    )
                },
    {
        match random_seed() {
            None => Err(NoRandomness),
            Some(secret) => {
                let out = self.start_handshake(local, secret, now);
                assert(old(self)@.after_start(*local, secret@, now) == self@);
                Ok(out)
            },
        }
    }

    /// Takes the peer's handshake. One that the session does not wait for, that
    /// names another sender or whose tag does not fit is dropped and changes
    /// nothing. One that is taken establishes the session where ours is out,
    /// and else leaves it waiting for ours to be sent.
    pub fn receive_handshake(&mut self, local: &PrivateIdentity, h: &Handshake, now: u64) -> (taken:
        bool)
        ensures
            taken == old(self)@.accepts_handshake(*local, h@),
            final(self)@ == old(self)@.after_handshake(*local, h@, now),
            !taken ==> *final(self) == *old(self),
    {
        match self.state {
            SessionState::HandshakeReceived | SessionState::Established => {
                return false;
            },
            _ => {},
        }
        if h.sender != self.peer_key {
            return false;
        }
        let ours = local.public_key();
        let secret = x25519(&local.private_key().bytes, &self.peer_key.bytes);
        let expected = hash32(
            TAG_DOMAIN,
            secret.as_slice(),
            self.peer_key.bytes.as_slice(),
            ours.bytes.as_slice(),
            h.ephemeral.as_slice(),
        );
        if !bytes_equal(h.tag.as_slice(), expected.as_slice()) {
            return false;
        }
        match self.state {
            SessionState::HandshakeSent => {
                let mine = self.my_ephemeral;
                self.establish(local, mine, h.ephemeral, now);
            },
            _ => {
                self.reset(SessionState::HandshakeReceived, now);
                self.peer_ephemeral = h.ephemeral;
            },
        }
        true
    }

    /// Seals `plaintext`, bound to `aad`, under the next nonce. Gives the nonce
    /// and the sealed bytes; gives nothing, and spends no nonce, where the
    /// session is not established, the nonces are used up or the cipher refuses.
    pub fn seal(&mut self, aad: &[u8], plaintext: &[u8], now: u64) -> (out: Option<(u64, Vec<u8>)>)
        ensures
            final(self)@ == old(self)@.after_seal(aad@, plaintext@, now),
            out is Some <==> old(self)@.sealed_by(aad@, plaintext@) is Some,
            out matches Some((nonce, sealed)) ==> nonce == old(self)@.send_nonce && old(
                self,
            )@.sealed_by(aad@, plaintext@) == Some(sealed@),
            out is None ==> *final(self) == *old(self),
    {
        if !self.is_established() || self.send_nonce == u64::MAX {
            return None;
        }
        let nonce = self.send_nonce;
        let nonce12 = nonce_for(nonce);
        match aead_seal(&self.send_key, &nonce12, aad, plaintext) {
            None => None,
            Some(sealed) => {
                self.send_nonce = nonce + 1;
                self.last_activity = now;
                Some((nonce, sealed))
            },
        }
    }

    /// Opens the packet with `nonce`, bound to `aad`. A packet is dropped, and
    /// changes nothing, where the session is not established, the nonce is
    /// older than the replay window or was seen before, or the seal is broken.
    pub fn open(&mut self, aad: &[u8], nonce: u64, sealed: &[u8], now: u64) -> (out: Option<
        Vec<u8>,
    >)
        ensures
            final(self)@ == old(self)@.after_open(aad@, nonce, sealed@, now),
            out is Some <==> old(self)@.opened_by(aad@, nonce, sealed@) is Some,
            out matches Some(plaintext) ==> old(self)@.opened_by(aad@, nonce, sealed@) == Some(
                plaintext@,
            ),
            out is None ==> *final(self) == *old(self),
    {
        if !self.is_established() || !self.window.accepts(nonce) {
            return None;
        }
        let nonce12 = nonce_for(nonce);
        match aead_open(&self.recv_key, &nonce12, aad, sealed) {
            None => None,
            Some(plaintext) => {
                self.window.record(nonce);
                self.last_activity = now;
                Some(plaintext)
            },
        }
    }

    /// Looks at the clock: a session that has carried nothing for `timeout` or
    /// longer expires and loses its keys.
    pub fn expire_if_idle(&mut self, now: u64, timeout: u64) -> (expired: bool)
        ensures
            expired == old(self)@.is_idle(now, timeout),
            final(self)@ == old(self)@.after_tick(now, timeout),
            !expired ==> *final(self) == *old(self),
    {
        match self.state {
            SessionState::Uninitiated | SessionState::Expired => {
                return false;
            },
            _ => {},
        }
        if now < self.last_activity || now - self.last_activity < timeout {
            return false;
        }
        let last = self.last_activity;
        self.reset(SessionState::Expired, now);
        self.last_activity = last;
        true
    }
}

/// X25519 gives both sides of a key agreement the same secret. This says so of
/// the two secrets `a` and `b`.
pub open spec fn key_agreement_commutes(a: Seq<u8>, b: Seq<u8>) -> bool {
    x25519_of(a, public_key_of(b)) == x25519_of(b, public_key_of(a))
}

/// Computes both sides of the key agreement between the secrets `a` and `b`
/// and says whether they come to the same.
pub fn key_agreement_holds(a: &[u8; 32], b: &[u8; 32]) -> (agree: bool)
    ensures
        agree == key_agreement_commutes(a@, b@),
{
    let for_a = ephemeral_public(a);
    let for_b = ephemeral_public(b);
    let at_a = x25519(a, &for_b);
    let at_b = x25519(b, &for_a);
    bytes_equal(at_a.as_slice(), at_b.as_slice())
}

/// Two peers that start with fresh sessions and exchange their handshakes end
/// established, each sealing with the key that the other opens with. This holds
/// whether one peer answers the other's handshake or both send before either
/// receives, given that the key agreement is symmetric for their long-term
/// secrets and for their session secrets.
pub proof fn lemma_handshake_either_order(
    a: PrivateIdentity,
    b: PrivateIdentity,
    a_secret: Seq<u8>,
    b_secret: Seq<u8>,
    t0: u64,
    t1: u64,
    t2: u64,
    t3: u64,
)
    requires
        a.wf(),
        b.wf(),
        key_agreement_commutes(a.spec_private_key()@, b.spec_private_key()@),
        key_agreement_commutes(a_secret, b_secret),
    ensures
        ({
            let a_key = a.spec_public_key()@;
            let b_key = b.spec_public_key()@;
            let from_a = handshake_from(a, b_key, a_secret);
            let from_b = handshake_from(b, a_key, b_secret);
            let a_sent = SessionView::fresh(b_key, t0).after_start(a, a_secret, t1);
            // b answers a
            let b_got = SessionView::fresh(a_key, t0).after_handshake(b, from_a, t2);
            let b_done = b_got.after_start(b, b_secret, t2);
            let a_done = a_sent.after_handshake(a, from_b, t3);
            // both send first
            let b_sent = SessionView::fresh(a_key, t0).after_start(b, b_secret, t1);
            let b_crossed = b_sent.after_handshake(b, from_a, t2);
            &&& a_sent.state is HandshakeSent
            &&& b_got.state is HandshakeReceived
            &&& b_sent.state is HandshakeSent
            &&& a_done.state is Established
            &&& b_done.state is Established
            &&& b_crossed.state is Established
            &&& a_done.send_key == b_done.recv_key
            &&& a_done.recv_key == b_done.send_key
            &&& a_done.send_key == b_crossed.recv_key
            &&& a_done.recv_key == b_crossed.send_key
        }),
{
    a.lemma_wf();
    b.lemma_wf();
}

/// The tag that a session with view `s` expects on a handshake with session key `ephemeral`.
pub open spec fn expected_tag(s: SessionView, local: PrivateIdentity, ephemeral: Seq<u8>) -> Seq<
    u8,
> {
    handshake_tag(
        x25519_of(local.spec_private_key()@, s.peer_key),
        s.peer_key,
        local.spec_public_key()@,
        ephemeral,
    )
}

/// A handshake is taken only as it was sent. Once a session would take `h`, it
/// drops every `forged` that differs from `h` in the sender alone, in the tag
/// alone, or in the session key alone where the tags of the two session keys
/// differ; and a dropped handshake leaves the session as it was.
pub proof fn lemma_tampered_handshake_refused(
    s: SessionView,
    local: PrivateIdentity,
    h: HandshakeView,
    forged: HandshakeView,
    now: u64,
)
    requires
        s.accepts_handshake(local, h),
        forged.sender != h.sender || (forged.ephemeral == h.ephemeral && forged.tag != h.tag) || (
        forged.ephemeral != h.ephemeral && forged.tag == h.tag && expected_tag(
            s,
            local,
            forged.ephemeral,
        ) != expected_tag(s, local, h.ephemeral)),
    ensures
        !s.accepts_handshake(local, forged),
        s.after_handshake(local, forged, now) == s,
{
}

/// No nonce is used twice in one direction of a session: every packet that
/// is sealed carries the nonce that stood, and leaves a higher one standing.
pub proof fn lemma_nonces_never_repeat(
    s: SessionView,
    aad: Seq<u8>,
    plaintext: Seq<u8>,
    now: u64,
    next_aad: Seq<u8>,
    next_plaintext: Seq<u8>,
)
    requires
        s.sealed_by(aad, plaintext) is Some,
    ensures
        s.after_seal(aad, plaintext, now).send_nonce == s.send_nonce + 1,
        s.after_seal(aad, plaintext, now).send_key == s.send_key,
        s.after_seal(aad, plaintext, now).sealed_by(next_aad, next_plaintext) is Some
            ==> s.after_seal(aad, plaintext, now).send_nonce > s.send_nonce,
{
}

/// A packet that was opened once is dropped when it comes again, and dropping
/// it changes nothing; and whatever is opened in between, its nonce stays refused.
pub proof fn lemma_replayed_packet_dropped(
    s: SessionView,
    aad: Seq<u8>,
    nonce: u64,
    sealed: Seq<u8>,
    now: u64,
    later_aad: Seq<u8>,
    later_nonce: u64,
    later_sealed: Seq<u8>,
    later: u64,
)
    requires
        s.opened_by(aad, nonce, sealed) is Some,
    ensures
        ({
            let once = s.after_open(aad, nonce, sealed, now);
            let then = once.after_open(later_aad, later_nonce, later_sealed, later);
            &&& once.state is Established
            &&& once.opened_by(aad, nonce, sealed) is None
            &&& once.after_open(aad, nonce, sealed, later) == once
            &&& then.refused.contains(nonce)
            &&& then.opened_by(aad, nonce, sealed) is None
            &&& then.after_open(aad, nonce, sealed, later) == then
        }),
{
}

/// The system's secure random source failed.
#[derive(Clone, Copy, Debug, PartialEq, Eq, Structural)]
pub struct NoRandomness;

} // verus!
