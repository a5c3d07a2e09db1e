//! The dispatch step: one event in, the tables brought up to date, at most one
//! action out. The loop that polls the devices and performs the actions lives
//! outside; everything that is decided is decided here.

use vstd::prelude::*;
use crate::codec::{decode, frame_fault, frame_path, frame_payload};
use crate::crypto::random_seed;
use crate::identity::{address_of, is_valid_address, Address, PrivateIdentity, PublicKey};
use crate::label::{encode_path, SwitchLabel};
use crate::message::{decode_message, encode_message, encode_packet_message, ip_destination};
use crate::message::{ip_destination_of, message_bytes, parse_message, Message, MessageView};
use crate::packet::{decode_packet, parse_packet, Packet, PacketView};
use crate::peer::{action_view, lemma_same_endpoint, Action, ActionView, Endpoint, Peer, PeerView};
use crate::router::{Advertisement, AdvertisementView, Router, RouterView, LOCAL};
use crate::session::{NoRandomness, SessionState};

verus! {

/// A node has at most this many direct peers: one for each directive.
pub const MAX_PEERS: usize = 255;

/// What the outside reports to the dispatcher.
#[derive(Debug)]
pub enum Event {
    /// An IP packet was read from the tunnel device.
    TunPacket(Vec<u8>),
    /// A datagram was received from `from`.
    Datagram { from: Endpoint, bytes: Vec<u8> },
    /// Time has passed.
    Tick,
    /// It is time to open the session with the peer that the directive names.
    Connect(u8),
    /// It is time to tell the peer that directive `to` names about `destination`.
    Advertise { to: u8, destination: Address },
}

/// An event as plain values.
pub enum EventView {
    TunPacket(Seq<u8>),
    Datagram { from: Endpoint, bytes: Seq<u8> },
    Tick,
    Connect(u8),
    Advertise { to: u8, destination: Seq<u8> },
}

impl View for Event {
    type V = EventView;

    open spec fn view(&self) -> EventView {
        match self {
            Event::TunPacket(p) => EventView::TunPacket(p@),
            Event::Datagram { from, bytes } => EventView::Datagram { from: *from, bytes: bytes@ },
            Event::Tick => EventView::Tick,
            Event::Connect(d) => EventView::Connect(*d),
            Event::Advertise { to, destination } => EventView::Advertise {
                to: *to,
                destination: destination@,
            },
        }
    }
}

/// The directive that names the `i`-th peer.
pub open spec fn directive_of(i: int) -> u8 {
    (i + 1) as u8
}

/// The directives of the peers whose session is established.
pub open spec fn established_peers(peers: Seq<PeerView>) -> Set<u8> {
    Set::new(
        |d: u8| d != LOCAL && d - 1 < peers.len() && peers[d - 1].session.state is Established,
    )
}

/// Whether the `i`-th peer is the one at `endpoint`.
pub open spec fn is_at(peers: Seq<PeerView>, endpoint: Endpoint, i: int) -> bool {
    0 <= i < peers.len() && peers[i].endpoint == endpoint
}

/// Which peer is at `endpoint`, if any.
pub open spec fn peer_at(peers: Seq<PeerView>, endpoint: Endpoint) -> Option<int> {
    if exists|i: int| is_at(peers, endpoint, i) {
        Some(choose|i: int| is_at(peers, endpoint, i))
    } else {
        None
    }
}

/// The dispatcher as plain values.
pub struct DispatcherView {
    pub identity: PrivateIdentity,
    pub router: RouterView,
    pub peers: Seq<PeerView>,
    pub session_timeout: u64,
    pub route_max_age: u64,
}

impl DispatcherView {
    /// The router is that of this node, it counts as reachable exactly the
    /// peers with an established session, and no two peers share an endpoint.
    pub open spec fn wf(self) -> bool {
        &&& self.router.wf()
        &&& self.router.own == self.identity.spec_address()@
        &&& self.router.reachable == established_peers(self.peers)
        &&& self.peers.len() <= MAX_PEERS
        &&& forall|i: int, j: int|
            0 <= i < j < self.peers.len() ==> self.peers[i].endpoint != self.peers[j].endpoint
    }

    /// Whether a peer at `endpoint` with long-term key `key` can be added.
    pub open spec fn can_add(self, endpoint: Endpoint, key: Seq<u8>) -> bool {
        &&& self.peers.len() < MAX_PEERS
        &&& peer_at(self.peers, endpoint) is None
        &&& is_valid_address(address_of(key))
    }

    /// The dispatcher with one more peer, and with the route to it: one hop.
    pub open spec fn with_new_peer(
        self,
        endpoint: Endpoint,
        key: Seq<u8>,
        now: u64,
    ) -> DispatcherView {
        DispatcherView {
            peers: self.peers.push(PeerView::fresh(endpoint, key, now)),
            router: self.router.learned(
                AdvertisementView {
                    from: directive_of(self.peers.len() as int),
                    destination: address_of(key),
                    path: Seq::<u8>::empty(),
                    metric: 0,
                },
                now,
            ),
            ..self
        }
    }

    /// The dispatcher with `p` in place of the `i`-th peer.
    pub open spec fn with_peer(self, i: int, p: PeerView) -> DispatcherView {
        let peers = self.peers.update(i, p);
        DispatcherView {
            peers,
            router: RouterView { reachable: established_peers(peers), ..self.router },
            ..self
        }
    }

    /// Handing the peer that directive `d` names a message to carry along
    /// `path`. A directive that names no peer drops the message.
    pub open spec fn hand_to(
        self,
        d: u8,
        path: Seq<u8>,
        plaintext: Seq<u8>,
        now: u64,
        entropy: Seq<u8>,
    ) -> (DispatcherView, Option<ActionView>) {
        if d == LOCAL || d - 1 >= self.peers.len() {
            (self, None)
        } else {
            let (p, action) = self.peers[d - 1].handed(
                self.identity,
                path,
                plaintext,
                now,
                entropy,
            );
            (self.with_peer(d - 1, p), action)
        }
    }

    /// An IP packet came from the tunnel device. It goes to the first hop of
    /// the best route to its destination, with the label for the rest of the
    /// way; where no route leads through a peer with an established session,
    /// the best of all routes is tried, which wakes the session with its first
    /// hop. The packet is dropped where it names no destination, names this
    /// node, or no route is known.
    pub open spec fn on_tun(self, packet: Seq<u8>, now: u64, entropy: Seq<u8>) -> (
        DispatcherView,
        Option<ActionView>,
    ) {
        match ip_destination_of(packet) {
            None => (self, None),
            Some(destination) => if destination == self.router.own {
                (self, None)
            } else {
                match self.router.chosen_hop(destination) {
                    None => (self, None),
                    Some(hop) => self.hand_to(
                        hop,
                        self.router.routes[(destination, hop)].path.skip(1),
                        message_bytes(MessageView::Packet(packet)),
                        now,
                        entropy,
                    ),
                }
            },
        }
    }

    /// A packet from the `from`-th peer was opened. With hops left on its label
    /// it goes on to the next one, as it is. With none left it has arrived: an
    /// IP packet for this node is written to the tunnel device, an
    /// advertisement is merged into the routing table, anything else is
    /// dropped. A peer may advertise no address but its own as reached in no hop.
    pub open spec fn on_opened(
        self,
        from: int,
        path: Seq<u8>,
        plaintext: Seq<u8>,
        now: u64,
        entropy: Seq<u8>,
    ) -> (DispatcherView, Option<ActionView>) {
        if path.len() > 0 {
            self.hand_to(path[0], path.skip(1), plaintext, now, entropy)
        } else {
            match parse_message(plaintext) {
                None => (self, None),
                Some(MessageView::Packet(packet)) => (
                    self,
                    if ip_destination_of(packet) == Some(self.router.own) {
                        Some(ActionView::WriteTun(packet))
                    } else {
                        None
                    },
                ),
                Some(MessageView::Advert { destination, path: way, metric }) => if way.len() == 0
                    && destination != self.peers[from].address {
                    (self, None)
                } else {
                    (
                    DispatcherView {
                        router: self.router.learned(
                            AdvertisementView {
                                from: directive_of(from),
                                destination,
                                path: way,
                                metric,
                            },
                            now,
                        ),
                        ..self
                    },
                    None,
                )
                },
            }
        }
    }

    /// A datagram came from `from`. What is no frame, comes from no peer,
    /// holds no packet, is a handshake that the session does not take or a
    /// sealed packet that does not open is dropped and changes nothing.
    pub open spec fn on_datagram(
        self,
        from: Endpoint,
        bytes: Seq<u8>,
        now: u64,
        entropy: Seq<u8>,
    ) -> (DispatcherView, Option<ActionView>) {
        if frame_fault(bytes) is Some {
            (self, None)
        } else {
            match (peer_at(self.peers, from), parse_packet(frame_payload(bytes))) {
                (Some(i), Some(PacketView::Handshake(h))) => if frame_path(bytes).len() > 0 {
                    (self, None)
                } else {
                    let (p, action) = self.peers[i].shook(self.identity, h, now, entropy);
                    (self.with_peer(i, p), action)
                },
                (Some(i), Some(PacketView::Data { nonce, sealed })) => {
                    let path = frame_path(bytes);
                    match self.peers[i].session.opened_by(encode_path(path), nonce, sealed) {
                        None => (self, None),
                        Some(plaintext) => self.with_peer(
                            i,
                            self.peers[i].opened(encode_path(path), nonce, sealed, now),
                        ).on_opened(i, path, plaintext, now, entropy),
                    }
                },
                _ => (self, None),
            }
        }
    }

    /// Time has passed: idle sessions expire and stale routes are evicted.
    pub open spec fn on_tick(self, now: u64) -> DispatcherView {
        let peers = Seq::new(
            self.peers.len(),
            |i: int| self.peers[i].ticked(now, self.session_timeout),
        );
        DispatcherView {
            peers,
            router: RouterView {
                reachable: established_peers(peers),
                ..self.router.evicted(now, self.route_max_age)
            },
            ..self
        }
    }

    /// What one event does.
    pub open spec fn step(self, event: EventView, now: u64, entropy: Seq<u8>) -> (
        DispatcherView,
        Option<ActionView>,
    ) {
        match event {
            EventView::TunPacket(packet) => self.on_tun(packet, now, entropy),
            EventView::Datagram { from, bytes } => self.on_datagram(from, bytes, now, entropy),
            EventView::Tick => (self.on_tick(now), None),
            EventView::Connect(d) => self.on_connect(d, now, entropy),
            EventView::Advertise { to, destination } => self.on_advertise(to, destination, now),
        }
    }

    /// Opening the session with the peer that directive `d` names.
    pub open spec fn on_connect(self, d: u8, now: u64, entropy: Seq<u8>) -> (
        DispatcherView,
        Option<ActionView>,
    ) {
        if d == LOCAL || d - 1 >= self.peers.len() {
            (self, None)
        } else {
            let (p, action) = self.peers[d - 1].greeted(self.identity, now, entropy);
            (self.with_peer(d - 1, p), action)
        }
    }

    /// Whether handing a message to the peer that directive `d` names may
    /// send our handshake, and so use a fresh secret.
    pub open spec fn wakes(self, d: u8) -> bool {
        d != LOCAL && d - 1 < self.peers.len() && self.peers[d - 1].session.can_start()
    }

    /// Whether the step for `event` may use a fresh secret: only a step that
    /// may send our handshake does. A tick, an advertisement, a packet that
    /// goes over an established session, and whatever is dropped for its form
    /// never do.
    pub open spec fn may_use_secret(self, event: EventView) -> bool {
        match event {
            EventView::Tick => false,
            EventView::Advertise { to, destination } => false,
            EventView::Connect(d) => self.wakes(d),
            EventView::TunPacket(packet) => match ip_destination_of(packet) {
                None => false,
                Some(destination) => destination != self.router.own && (self.router.chosen_hop(
                    destination,
                ) matches Some(hop) && self.wakes(hop)),
            },
            EventView::Datagram { from, bytes } => frame_fault(bytes) is None && match (
                peer_at(self.peers, from),
                parse_packet(frame_payload(bytes)),
            ) {
                (Some(i), Some(PacketView::Handshake(h))) => frame_path(bytes).len() == 0
                    && self.peers[i].session.can_start(),
                (Some(i), Some(PacketView::Data { nonce, sealed })) => frame_path(bytes).len() > 0
                    && self.wakes(frame_path(bytes)[0]),
                _ => false,
            },
        }
    }

    /// What this node tells the peer that directive `to` names about
    /// `destination`: itself at no hop, or its best route unless that leads
    /// through the very peer.
    pub open spec fn offer(self, to: u8, destination: Seq<u8>) -> Option<MessageView> {
        if destination == self.router.own {
            Some(
                MessageView::Advert { destination, path: Seq::<u8>::empty(), metric: 0 },
            )
        } else {
            match self.router.best_hop(destination) {
                None => None,
                Some(hop) => if hop == to {
                    None
                } else {
                    Some(
                        MessageView::Advert {
                            destination,
                            path: self.router.routes[(destination, hop)].path,
                            metric: self.router.routes[(destination, hop)].metric,
                        },
                    )
                },
            }
        }
    }

    /// Advertising `destination` to the peer that directive `to` names, over
    /// an established session only.
    pub open spec fn on_advertise(self, to: u8, destination: Seq<u8>, now: u64) -> (
        DispatcherView,
        Option<ActionView>,
    ) {
        if to == LOCAL || to - 1 >= self.peers.len()
            || !(self.peers[to - 1].session.state is Established) {
            (self, None)
        } else {
            match self.offer(to, destination) {
                None => (self, None),
                Some(m) => {
                    let (p, action) = self.peers[to - 1].sent(
                        Seq::<u8>::empty(),
                        message_bytes(m),
                        now,
                    );
                    (self.with_peer(to - 1, p), action)
                },
            }
        }
    }
}

/// Putting `p` in place of the `i`-th peer changes what counts as established
/// for that peer's directive only.
pub proof fn lemma_established_update(peers: Seq<PeerView>, i: int, p: PeerView)
    requires
        0 <= i < peers.len() <= MAX_PEERS,
    ensures
        established_peers(peers.update(i, p)) == if p.session.state is Established {
            established_peers(peers).insert(directive_of(i))
        } else {
            established_peers(peers).remove(directive_of(i))
        },
{
    let after = established_peers(peers.update(i, p));
    if p.session.state is Established {
        assert(after =~= established_peers(peers).insert(directive_of(i)));
    } else {
        assert(after =~= established_peers(peers).remove(directive_of(i)));
    }
}

/// A step that may not use a fresh secret comes to the same whatever secret
/// it is given.
pub proof fn lemma_unused_secret(
    v: DispatcherView,
    event: EventView,
    now: u64,
    one: Seq<u8>,
    other: Seq<u8>,
)
    requires
        !v.may_use_secret(event),
    ensures
        v.step(event, now, one) == v.step(event, now, other),
{
    match event {
        EventView::Datagram { from, bytes } => {
            if frame_fault(bytes) is None {
                match (peer_at(v.peers, from), parse_packet(frame_payload(bytes))) {
                    (Some(i), Some(PacketView::Data { nonce, sealed })) => {
                        let path = frame_path(bytes);
                        let aad = encode_path(path);
                        if v.peers[i].session.opened_by(aad, nonce, sealed) is Some {
                            let opened = v.peers[i].opened(aad, nonce, sealed, now);
                            let next = v.with_peer(i, opened);
                            assert(opened.session.state == v.peers[i].session.state);
                            if path.len() > 0 {
                                let d = path[0];
                                if d != LOCAL && d - 1 < v.peers.len() {
                                    assert(next.peers[d - 1].session.state == v.peers[d
                                        - 1].session.state);
                                }
                            }
                        }
                    },
                    _ => {},
                }
            }
        },
        _ => {},
    }
}

/// A frame that is dropped for what it is changes nothing: whatever is no
/// frame, or holds no packet, leaves the dispatcher as it was and asks for
/// nothing.
pub proof fn lemma_malformed_datagram_changes_nothing(
    v: DispatcherView,
    from: Endpoint,
    bytes: Seq<u8>,
    now: u64,
    entropy: Seq<u8>,
)
    requires
        frame_fault(bytes) is Some || parse_packet(frame_payload(bytes)) is None || peer_at(
            v.peers,
            from,
        ) is None,
    ensures
        v.on_datagram(from, bytes, now, entropy) == (v, None::<ActionView>),
{
}

spec fn peers_view(peers: Seq<Peer>) -> Seq<PeerView> {
    Seq::new(peers.len(), |i: int| peers[i]@)
}

/// The dispatcher of one node: its identity, its routing table and its peers.
pub struct Dispatcher {
    identity: PrivateIdentity,
    router: Router,
    peers: Vec<Peer>,
    session_timeout: u64,
    route_max_age: u64,
}

impl View for Dispatcher {
    type V = DispatcherView;

    closed spec fn view(&self) -> DispatcherView {
        DispatcherView {
            identity: self.identity,
            router: self.router@,
            peers: peers_view(self.peers@),
            session_timeout: self.session_timeout,
            route_max_age: self.route_max_age,
        }
    }
}

impl Dispatcher {
    /// The parts are well-formed, and so is the whole as plain values.
    pub closed spec fn wf(&self) -> bool {
        &&& self.router.wf()
        &&& forall|i: int| 0 <= i < self.peers@.len() ==> (#[trigger] self.peers@[i]).wf()
        &&& self@.wf()
    }

    pub proof fn lemma_view_wf(&self)
        requires
            self.wf(),
        ensures
            self@.wf(),
    {
    }

    /// A dispatcher for the node with `identity`, without peers or routes.
    /// Sessions expire after `session_timeout` without traffic, routes after
    /// `route_max_age` without confirmation.
    pub fn new(identity: PrivateIdentity, session_timeout: u64, route_max_age: u64) -> (dispatcher:
        Dispatcher)
        ensures
            dispatcher.wf(),
            dispatcher@.identity == identity,
            dispatcher@.peers == Seq::<PeerView>::empty(),
            dispatcher@.router.routes.dom() == Set::<(Seq<u8>, u8)>::empty(),
            dispatcher@.session_timeout == session_timeout,
            dispatcher@.route_max_age == route_max_age,
    {
        let own = identity.address();
        let router = Router::new(&own);
        let dispatcher = Dispatcher {
            identity,
            router,
            peers: Vec::new(),
            session_timeout,
            route_max_age,
        };
        proof {
            dispatcher.router.lemma_view_wf();
            assert(dispatcher@.peers =~= Seq::<PeerView>::empty());
            assert(dispatcher@.router.reachable =~= established_peers(dispatcher@.peers));
        }
        dispatcher
    }

    pub fn identity(&self) -> (identity: &PrivateIdentity)
        ensures
            *identity == self@.identity,
    {
        &self.identity
    }

    pub fn router(&self) -> (router: &Router)
        ensures
            router@ == self@.router,
            self.wf() ==> router.wf(),
    {
        &self.router
    }

    /// Every destination that the routing table has a route to, each at least
    /// once: what there is to advertise, besides this node itself.
    pub fn destinations_known(&self) -> (known: Vec<Address>)
        requires
            self.wf(),
        ensures
            forall|i: int|
                0 <= i < known@.len() ==> self@.router.leads_to(#[trigger] known@[i]@),
            forall|d: Seq<u8>, h: u8| #[trigger]
                self@.router.routes.contains_key((d, h)) ==> crate::router::listed(known@, d),
    {
        self.router.destinations()
    }

    pub fn peer_count(&self) -> (n: usize)
        ensures
            n == self@.peers.len(),
    {
        self.peers.len()
    }

    /// Where the session with the peer that directive `d` names stands.
    pub fn session_state(&self, d: u8) -> (state: Option<SessionState>)
        ensures
            state is Some <==> d != LOCAL && d - 1 < self@.peers.len(),
            state matches Some(s) ==> s == self@.peers[d - 1].session.state,
    {
        if d == LOCAL || (d as usize) - 1 >= self.peers.len() {
            None
        } else {
            Some(self.peers[d as usize - 1].state())
        }
    }

    /// The peer that directive `d` names.
    pub fn peer(&self, d: u8) -> (peer: Option<&Peer>)
        ensures
            peer is Some <==> d != LOCAL && d - 1 < self@.peers.len(),
            peer matches Some(p) ==> p@ == self@.peers[d - 1],
    {
        if d == LOCAL || (d as usize) - 1 >= self.peers.len() {
            None
        } else {
            Some(&self.peers[d as usize - 1])
        }
    }

    /// Which peer is at `endpoint`.
    fn find_peer(&self, endpoint: &Endpoint) -> (at: Option<usize>)
        requires
            self.wf(),
        ensures
            at is Some <==> peer_at(self@.peers, *endpoint) is Some,
            at matches Some(i) ==> i < self.peers@.len() && peer_at(self@.peers, *endpoint)
                == Some(i as int),
    {
        let mut i: usize = 0;
        while i < self.peers.len()
            invariant
                i <= self.peers@.len(),
                self.wf(),
                forall|j: int| 0 <= j < i ==> !is_at(self@.peers, *endpoint, j),
            decreases self.peers@.len() - i,
        {
            let known = self.peers[i].endpoint();
            proof {
                lemma_same_endpoint(known, *endpoint);
            }
            if known == *endpoint {
                proof {
                    assert(is_at(self@.peers, *endpoint, i as int));
                    let c = choose|c: int| is_at(self@.peers, *endpoint, c);
                    if c < i {
                        assert(self@.peers[c].endpoint != self@.peers[i as int].endpoint);
                    }
                    if i < c {
                        assert(self@.peers[i as int].endpoint != self@.peers[c].endpoint);
                    }
                }
                return Some(i);
            }
            i += 1;
        }
        None
    }

    /// Adds a direct peer at `endpoint` that holds the long-term key `key`, and
    /// gives the directive that names it from now on. No peer is added where
    /// the table is full, a peer is already at `endpoint`, or `key` certifies
    /// no usable address.
    pub fn add_peer(&mut self, endpoint: Endpoint, key: PublicKey, now: u64) -> (directive: Option<
        u8,
    >)
        requires
            old(self).wf(),
        ensures
            final(self).wf(),
            directive is Some <==> old(self)@.can_add(endpoint, key@),
            directive matches Some(d) ==> d == directive_of(old(self)@.peers.len() as int)
                && final(self)@ == old(self)@.with_new_peer(endpoint, key@, now),
            directive is None ==> final(self)@ == old(self)@,
    {
        if self.peers.len() >= MAX_PEERS {
            return None;
        }
        if self.find_peer(&endpoint).is_some() {
            return None;
        }
        if !key.address().is_valid() {
            return None;
        }
        let ghost before = self@.peers;
        let d: u8 = (self.peers.len() + 1) as u8;
        let peer = Peer::new(endpoint, key, now);
        let adv = Advertisement {
            from: d,
            destination: peer.address(),
            label: SwitchLabel::empty(),
            metric: 0,
        };
        proof {
            self.router.lemma_view_wf();
            adv.label.lemma_view_is_path();
            crate::router::lemma_learn_keeps_wf(self@.router, adv@, now);
        }
        self.router.learn(&adv, now);
        self.peers.push(peer);
        proof {
            let fresh = PeerView::fresh(endpoint, key@, now);
            assert(self@.peers =~= before.push(fresh));
            assert(established_peers(self@.peers) =~= established_peers(before));
            assert forall|i: int, j: int|
                0 <= i < j < self@.peers.len() implies self@.peers[i].endpoint
                != self@.peers[j].endpoint by {
                if j == before.len() {
                    assert(!is_at(before, endpoint, i));
                } else {
                    assert(before[i].endpoint != before[j].endpoint);
                }
            }
        }
        Some(d)
    }

    /// Brings the router's note on the `i`-th peer up to date after that peer
    /// alone has changed.
    fn sync(&mut self, i: usize, Ghost(before): Ghost<DispatcherView>)
        requires
            before.wf(),
            i < before.peers.len(),
            i < old(self).peers@.len(),
            old(self).router.wf(),
            old(self)@.router == before.router,
            old(self)@.peers == before.peers.update(i as int, old(self)@.peers[i as int]),
            old(self)@.identity == before.identity,
            old(self)@.session_timeout == before.session_timeout,
            old(self)@.route_max_age == before.route_max_age,
            old(self)@.peers[i as int].endpoint == before.peers[i as int].endpoint,
            forall|j: int|
                0 <= j < old(self).peers@.len() ==> (#[trigger] old(self).peers@[j]).wf(),
        ensures
            final(self).wf(),
            final(self)@ == before.with_peer(i as int, old(self)@.peers[i as int]),
    {
        let up = self.peers[i].session().is_established();
        self.router.set_reachable((i + 1) as u8, up);
        proof {
            lemma_established_update(before.peers, i as int, self@.peers[i as int]);
            assert(self@.peers =~= old(self)@.peers);
        }
    }

    /// Hands the peer that directive `d` names a message to carry along `label`.
    fn hand_to(
        &mut self,
        d: u8,
        label: SwitchLabel,
        plaintext: Vec<u8>,
        now: u64,
        entropy: [u8; 32],
    ) -> (action: Option<Action>)
        requires
            old(self).wf(),
            label.wf(),
        ensures
            final(self).wf(),
            (final(self)@, action_view(action)) == old(self)@.hand_to(
                d,
                label@,
                plaintext@,
                now,
                entropy@,
            ),
    {
        if d == LOCAL || (d as usize) - 1 >= self.peers.len() {
            return None;
        }
        let i: usize = d as usize - 1;
        let local = self.identity;
        let ghost before = self@;
        let action = self.peers[i].hand(&local, label, plaintext, now, entropy);
        proof {
            assert(self@.peers =~= before.peers.update(i as int, self@.peers[i as int]));
        }
        self.sync(i, Ghost(before));
        action
    }

    /// An IP packet came from the tunnel device.
    pub fn on_tun(&mut self, packet: &[u8], now: u64, entropy: [u8; 32]) -> (action: Option<Action>)
        requires
            old(self).wf(),
        ensures
            final(self).wf(),
            (final(self)@, action_view(action)) == old(self)@.on_tun(packet@, now, entropy@),
    {
        let destination = match ip_destination(packet) {
            None => {
                return None;
            },
            Some(a) => a,
        };
        if destination == self.router.own_address() {
            return None;
        }
        let route = match self.router.lookup(&destination) {
            Some(route) => route,
            None => {
                match self.router.lookup_any(&destination) {
                    Some(route) => route,
                    None => {
                        return None;
                    },
                }
            },
        };
        match route.label.consume() {
            None => None,
            Some((d, rest)) => {
                let message = encode_packet_message(packet);
                self.hand_to(d, rest, message, now, entropy)
            },
        }
    }

    /// A packet from the `from`-th peer was opened.
    fn on_opened(
        &mut self,
        from: usize,
        label: SwitchLabel,
        plaintext: Vec<u8>,
        now: u64,
        entropy: [u8; 32],
    ) -> (action: Option<Action>)
        requires
            old(self).wf(),
            label.wf(),
            from < old(self)@.peers.len(),
        ensures
            final(self).wf(),
            (final(self)@, action_view(action)) == old(self)@.on_opened(
                from as int,
                label@,
                plaintext@,
                now,
                entropy@,
            ),
    {
        match label.consume() {
            Some((d, rest)) => self.hand_to(d, rest, plaintext, now, entropy),
            None => {
                match decode_message(plaintext.as_slice()) {
                    None => None,
                    Some(Message::Packet(packet)) => {
                        match ip_destination(packet.as_slice()) {
                            None => None,
                            Some(a) => {
                                if a == self.router.own_address() {
                                    Some(Action::WriteTun(packet))
                                } else {
                                    None
                                }
                            },
                        }
                    },
                    Some(Message::Advert { destination, label: way, metric }) => {
                        if way.is_empty() && destination != self.peers[from].address() {
                            return None;
                        }
                        let adv = Advertisement {
                            from: (from + 1) as u8,
                            destination,
                            label: way,
                            metric,
                        };
                        proof {
                            self.router.lemma_view_wf();
                            way.lemma_view_is_path();
                            crate::router::lemma_learn_keeps_wf(self@.router, adv@, now);
                        }
                        self.router.learn(&adv, now);
                        None
                    },
                }
            },
        }
    }

    /// A datagram came from `from`.
    pub fn on_datagram(
        &mut self,
        from: &Endpoint,
        bytes: &[u8],
        now: u64,
        entropy: [u8; 32],
    ) -> (action: Option<Action>)
        requires
            old(self).wf(),
        ensures
            final(self).wf(),
            (final(self)@, action_view(action)) == old(self)@.on_datagram(
                *from,
                bytes@,
                now,
                entropy@,
            ),
    {
        let (label, payload) = match decode(bytes) {
            Err(_) => {
                return None;
            },
            Ok(parts) => parts,
        };
        let i = match self.find_peer(from) {
            None => {
                return None;
            },
            Some(i) => i,
        };
        let local = self.identity;
        let ghost before = self@;
        match decode_packet(payload.as_slice()) {
            None => None,
            Some(Packet::Handshake(h)) => {
                if !label.is_empty() {
                    return None;
                }
                let action = self.peers[i].shake(&local, &h, now, entropy);
                proof {
                    assert(self@.peers =~= before.peers.update(i as int, self@.peers[i as int]));
                }
                self.sync(i, Ghost(before));
                action
            },
            Some(Packet::Data { nonce, sealed }) => {
                let aad = label.to_bytes();
                match self.peers[i].open(aad.as_slice(), nonce, sealed.as_slice(), now) {
                    None => {
                        proof {
                            assert(self@.peers =~= before.peers);
                        }
                        None
                    },
                    Some(plaintext) => {
                        proof {
                            assert(self@.peers =~= before.peers.update(
                                i as int,
                                self@.peers[i as int],
                            ));
                        }
                        self.sync(i, Ghost(before));
                        self.on_opened(i, label, plaintext, now, entropy)
                    },
                }
            },
        }
    }

    /// Time has passed.
    pub fn on_tick(&mut self, now: u64)
        requires
            old(self).wf(),
        ensures
            final(self).wf(),
            final(self)@ == old(self)@.on_tick(now),
    {
        let ghost before = self@;
        let timeout = self.session_timeout;
        let mut i: usize = 0;
        while i < self.peers.len()
            invariant
                i <= self.peers@.len() == before.peers.len(),
                before.wf(),
                self.router.wf(),
                self@.router.own == before.router.own,
                self@.router.routes == before.router.routes,
                self@.router.next_rank == before.router.next_rank,
                self@.router.reachable == established_peers(self@.peers),
                self@.identity == before.identity,
                self.session_timeout == timeout == before.session_timeout,
                self@.route_max_age == before.route_max_age,
                forall|j: int| 0 <= j < self.peers@.len() ==> (#[trigger] self.peers@[j]).wf(),
                forall|j: int|
                    0 <= j < i ==> self@.peers[j] == before.peers[j].ticked(now, timeout),
                forall|j: int| i <= j < before.peers.len() ==> self@.peers[j] == before.peers[j],
            decreases self.peers@.len() - i,
        {
            let ghost prior = self@.peers;
            self.peers[i].tick(now, timeout);
            let up = self.peers[i].session().is_established();
            self.router.set_reachable((i + 1) as u8, up);
            proof {
                assert(self@.peers =~= prior.update(i as int, self@.peers[i as int]));
                lemma_established_update(prior, i as int, self@.peers[i as int]);
            }
            i += 1;
        }
        self.router.evict_stale(now, self.route_max_age);
        proof {
            assert(self@.peers =~= before.on_tick(now).peers);
            self.router.lemma_view_wf();
            assert(self@.router == before.on_tick(now).router);
        }
    }

    /// Opens the session with the peer that directive `d` names, with
    /// `entropy` as the session secret, where it has not begun or has expired.
    pub fn connect(&mut self, d: u8, now: u64, entropy: [u8; 32]) -> (action: Option<Action>)
        requires
            old(self).wf(),
        ensures
            final(self).wf(),
            (final(self)@, action_view(action)) == old(self)@.on_connect(d, now, entropy@),
    {
        if d == LOCAL || (d as usize) - 1 >= self.peers.len() {
            return None;
        }
        let i: usize = d as usize - 1;
        let local = self.identity;
        let ghost before = self@;
        let action = self.peers[i].greet(&local, now, entropy);
        proof {
            assert(self@.peers =~= before.peers.update(i as int, self@.peers[i as int]));
        }
        self.sync(i, Ghost(before));
        action
    }

    /// Advertises `destination` to the peer that directive `to` names.
    pub fn advertise(&mut self, to: u8, destination: &Address, now: u64) -> (action: Option<Action>)
        requires
            old(self).wf(),
        ensures
            final(self).wf(),
            (final(self)@, action_view(action)) == old(self)@.on_advertise(to, destination@, now),
    {
        if to == LOCAL || (to as usize) - 1 >= self.peers.len() {
            return None;
        }
        let i: usize = to as usize - 1;
        if !self.peers[i].session().is_established() {
            return None;
        }
        let offer = if *destination == self.router.own_address() {
            Message::Advert { destination: *destination, label: SwitchLabel::empty(), metric: 0 }
        } else {
            match self.router.lookup(destination) {
                None => {
                    return None;
                },
                Some(route) => {
                    if route.next_hop == to {
                        return None;
                    }
                    Message::Advert {
                        destination: *destination,
                        label: route.label,
                        metric: route.metric,
                    }
                },
            }
        };
        let bytes = encode_message(&offer);
        let ghost before = self@;
        let direct = SwitchLabel::empty();
        let action = self.peers[i].send(&direct, bytes.as_slice(), now);
        proof {
            assert(self@.peers =~= before.peers.update(i as int, self@.peers[i as int]));
        }
        self.sync(i, Ghost(before));
        action
    }

    /// Takes one event, with `entropy` as the session secret should a
    /// handshake have to go out, and gives the one action to perform, if any.
    pub fn handle(&mut self, event: Event, now: u64, entropy: [u8; 32]) -> (action: Option<Action>)
        requires
            old(self).wf(),
        ensures
            final(self).wf(),
            (final(self)@, action_view(action)) == old(self)@.step(event@, now, entropy@),
    {
        match event {
            Event::TunPacket(packet) => self.on_tun(packet.as_slice(), now, entropy),
            Event::Datagram { from, bytes } => self.on_datagram(
                &from,
                bytes.as_slice(),
                now,
                entropy,
            ),
            Event::Tick => {
                self.on_tick(now);
                None
            },
            Event::Connect(d) => self.connect(d, now, entropy),
            Event::Advertise { to, destination } => self.advertise(to, &destination, now),
        }
    }

    /// Whether handing a message to the peer that directive `d` names may
    /// send our handshake.
    fn wakes(&self, d: u8) -> (may: bool)
        ensures
            may == self@.wakes(d),
    {
        if d == LOCAL || (d as usize) - 1 >= self.peers.len() {
            false
        } else {
            self.peers[d as usize - 1].session().can_start()
        }
    }

    /// Whether the step for `event` may use a fresh secret.
    pub fn needs_secret(&self, event: &Event) -> (may: bool)
        requires
            self.wf(),
        ensures
            may == self@.may_use_secret(event@),
    {
        match event {
            Event::Tick => false,
            Event::Advertise { to, destination } => false,
            Event::Connect(d) => self.wakes(*d),
            Event::TunPacket(packet) => {
                match ip_destination(packet.as_slice()) {
                    None => false,
                    Some(destination) => {
                        if destination == self.router.own_address() {
                            false
                        } else {
                            match self.router.lookup(&destination) {
                                Some(route) => self.wakes(route.next_hop),
                                None => {
                                    match self.router.lookup_any(&destination) {
                                        Some(route) => self.wakes(route.next_hop),
                                        None => false,
                                    }
                                },
                            }
                        }
                    },
                }
            },
            Event::Datagram { from, bytes } => {
                match decode(bytes.as_slice()) {
                    Err(_) => false,
                    Ok((label, payload)) => {
                        match (self.find_peer(from), decode_packet(payload.as_slice())) {
                            (Some(i), Some(Packet::Handshake(h))) => label.is_empty()
                                && self.peers[i].session().can_start(),
                            (Some(i), Some(Packet::Data { nonce, sealed })) => {
                                if label.is_empty() {
                                    false
                                } else {
                                    self.wakes(label.directive(0))
                                }
                            },
                            _ => false,
                        }
                    },
                }
            },
        }
    }

    /// Takes one event, drawing the session secret for a handshake from the
    /// system's random source where the step may use one. A step that may not
    /// always succeeds; without randomness a step that may changes nothing.
    pub fn poll(&mut self, event: Event, now: u64) -> (action: Result<Option<Action>, NoRandomness>)
        requires
            old(self).wf(),
        ensures
            final(self).wf(),
            !old(self)@.may_use_secret(event@) ==> action is Ok,
            action is Err ==> final(self)@ == old(self)@,
            action matches Ok(a) ==> exists|entropy: Seq<u8>| #[trigger]
                old(self)@.step(event@, now, entropy) == (final(self)@, action_view(a)),
            action matches Ok(a) ==> (!old(self)@.may_use_secret(event@) ==> forall|
                entropy: Seq<u8>,
            | #[trigger]
                old(self)@.step(event@, now, entropy) == (final(self)@, action_view(a))),
    {
        let entropy = if self.needs_secret(&event) {
            match random_seed() {
                None => {
                    return Err(NoRandomness);
                },
                Some(drawn) => drawn,
            }
        } else {
            [0u8; 32]
        };
        let a = self.handle(event, now, entropy);
        proof {
            assert(old(self)@.step(event@, now, entropy@) == (self@, action_view(a)));
            if !old(self)@.may_use_secret(event@) {
                assert forall|any: Seq<u8>| #[trigger]
                    old(self)@.step(event@, now, any) == (self@, action_view(a)) by {
                    lemma_unused_secret(old(self)@, event@, now, entropy@, any);
                }
            }
        }
        Ok(a)
    }
}

} // verus!
