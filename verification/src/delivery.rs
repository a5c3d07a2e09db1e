//! What the parts come to together: a packet from the tunnel device of one
//! node arrives at the tunnel device of a direct peer, or of a node one hop
//! further. The steps are those of the dispatcher; what they ask of the
//! primitives is said in so many words.

use vstd::prelude::*;
use crate::codec::{frame_bytes, lemma_decode_of_encode, MAX_PAYLOAD_LEN};
use crate::crypto::{aead_opened, aead_sealed, x25519_of};
use crate::dispatcher::{is_at, peer_at, DispatcherView};
use crate::identity::{public_key_of, PrivateIdentity, KEY_LEN};
use crate::label::encode_path;
use crate::message::{ip_destination_of, lemma_parse_of_message_bytes, message_bytes, MessageView};
use crate::packet::{lemma_parse_of_packet_bytes, packet_bytes, PacketView};
use crate::packet::{DATA_HEADER_LEN, TAG_LEN};
use crate::peer::{ActionView, Endpoint, PeerView};
use crate::session::{handshake_from, key_agreement_commutes, nonce_bytes, traffic_key};
use crate::session::SessionView;

verus! {

/// Whether `action` asks to send one datagram to `to`.
pub open spec fn sends_to(action: Option<ActionView>, to: Endpoint) -> bool {
    action matches Some(ActionView::SendDatagram { to: target, bytes }) && target == to
}

/// The bytes of the datagram that `action` asks to send.
pub open spec fn sent_bytes(action: Option<ActionView>) -> Seq<u8> {
    match action {
        Some(ActionView::SendDatagram { to, bytes }) => bytes,
        _ => Seq::<u8>::empty(),
    }
}

/// Whether `v` has the peer that directive `d` names at `endpoint`, holding
/// `key`, with nothing having happened between them, and no other peer there.
pub open spec fn has_fresh_peer(
    v: DispatcherView,
    d: u8,
    endpoint: Endpoint,
    key: Seq<u8>,
) -> bool {
    &&& d != 0
    &&& d - 1 < v.peers.len()
    &&& v.peers[d - 1].endpoint == endpoint
    &&& v.peers[d - 1].pending is None
    &&& exists|since: u64| v.peers[d - 1].session == SessionView::fresh(key, since)
}

/// The key that seals what `from` sends to `to` once their session secrets
/// are `mine` and `theirs`.
pub open spec fn sealing_key(
    from: PrivateIdentity,
    to: PrivateIdentity,
    mine: Seq<u8>,
    theirs: Seq<u8>,
) -> Seq<u8> {
    traffic_key(
        x25519_of(mine, public_key_of(theirs)),
        x25519_of(from.spec_private_key()@, to.spec_public_key()@),
        from.spec_public_key()@,
        to.spec_public_key()@,
    )
}

/// What the delivery asks of the primitives: that the key agreement comes to
/// the same on both sides, that session keys and tags have their lengths,
/// that the message is sealed into what fits a frame, and that what was
/// sealed opens to the message.
pub open spec fn primitives_serve(
    a: PrivateIdentity,
    b: PrivateIdentity,
    a_secret: Seq<u8>,
    b_secret: Seq<u8>,
    message: Seq<u8>,
) -> bool {
    let key = sealing_key(a, b, a_secret, b_secret);
    let aad = encode_path(Seq::<u8>::empty());
    &&& a.wf()
    &&& b.wf()
    &&& key_agreement_commutes(a.spec_private_key()@, b.spec_private_key()@)
    &&& key_agreement_commutes(a_secret, b_secret)
    &&& public_key_of(a_secret).len() == KEY_LEN
    &&& public_key_of(b_secret).len() == KEY_LEN
    &&& handshake_from(a, b.spec_public_key()@, a_secret).tag.len() == TAG_LEN
    &&& handshake_from(b, a.spec_public_key()@, b_secret).tag.len() == TAG_LEN
    &&& aead_sealed(key, nonce_bytes(0), aad, message) matches Some(sealed) && DATA_HEADER_LEN
        + sealed.len() <= MAX_PAYLOAD_LEN && aead_opened(key, nonce_bytes(0), aad, sealed) == Some(
        message,
    )
}

/// The one peer at an endpoint is the peer that `peer_at` finds.
pub proof fn lemma_peer_found(v: DispatcherView, endpoint: Endpoint, i: int)
    requires
        v.wf(),
        0 <= i < v.peers.len(),
        v.peers[i].endpoint == endpoint,
    ensures
        peer_at(v.peers, endpoint) == Some(i),
{
    assert(is_at(v.peers, endpoint, i));
    let c = choose|c: int| is_at(v.peers, endpoint, c);
    if c < i {
        assert(v.peers[c].endpoint != v.peers[i].endpoint);
    }
    if i < c {
        assert(v.peers[i].endpoint != v.peers[c].endpoint);
    }
}

/// Putting a peer with the same endpoint in place of a peer keeps the
/// dispatcher well-formed.
pub proof fn lemma_with_peer_wf(v: DispatcherView, i: int, p: PeerView)
    requires
        v.wf(),
        0 <= i < v.peers.len(),
        p.endpoint == v.peers[i].endpoint,
    ensures
        v.with_peer(i, p).wf(),
        v.with_peer(i, p).peers.len() == v.peers.len(),
        v.with_peer(i, p).peers[i] == p,
        v.with_peer(i, p).identity == v.identity,
        v.with_peer(i, p).router.own == v.router.own,
{
    let w = v.with_peer(i, p);
    assert forall|j: int, k: int| 0 <= j < k < w.peers.len() implies w.peers[j].endpoint
        != w.peers[k].endpoint by {
        assert(v.peers[j].endpoint != v.peers[k].endpoint);
    }
}

/// A packet that node A reads from its tunnel device for its direct peer B
/// is written, byte for byte, to the tunnel device of B, and both sessions end
/// established: A sends its handshake and lets the packet wait, B answers,
/// A seals the packet, B opens it. This holds of any two nodes that have each
/// other as a peer with which nothing has happened, where A's route to B is
/// the single hop, given what `primitives_serve` asks.
pub proof fn lemma_packet_reaches_direct_peer(
    a: DispatcherView,
    b: DispatcherView,
    to_b: u8,
    to_a: u8,
    at_a: Endpoint,
    at_b: Endpoint,
    packet: Seq<u8>,
    a_secret: Seq<u8>,
    b_secret: Seq<u8>,
    spare: Seq<u8>,
    t1: u64,
    t2: u64,
    t3: u64,
    t4: u64,
)
    requires
        a.wf(),
        b.wf(),
        a.router.own == a.identity.spec_address()@,
        b.router.own == b.identity.spec_address()@,
        a.router.own != b.router.own,
        has_fresh_peer(a, to_b, at_b, b.identity.spec_public_key()@),
        has_fresh_peer(b, to_a, at_a, a.identity.spec_public_key()@),
        a.router.chosen_hop(b.router.own) == Some(to_b),
        a.router.routes[(b.router.own, to_b)].path == seq![to_b],
        ip_destination_of(packet) == Some(b.router.own),
        primitives_serve(
            a.identity,
            b.identity,
            a_secret,
            b_secret,
            message_bytes(MessageView::Packet(packet)),
        ),
    ensures
        ({
            let (a1, hello) = a.on_tun(packet, t1, a_secret);
            let (b1, answer) = b.on_datagram(at_a, sent_bytes(hello), t2, b_secret);
            let (a2, sealed) = a1.on_datagram(at_b, sent_bytes(answer), t3, spare);
            let (b2, written) = b1.on_datagram(at_a, sent_bytes(sealed), t4, spare);
            &&& sends_to(hello, at_b)
            &&& sends_to(answer, at_a)
            &&& sends_to(sealed, at_b)
            &&& written == Some(ActionView::WriteTun(packet))
            &&& a2.peers[to_b - 1].session.state is Established
            &&& b2.peers[to_a - 1].session.state is Established
        }),
{
    let ida = a.identity;
    let idb = b.identity;
    let a_key = ida.spec_public_key()@;
    let b_key = idb.spec_public_key()@;
    let message = message_bytes(MessageView::Packet(packet));
    let none = Seq::<u8>::empty();
    ida.lemma_wf();
    idb.lemma_wf();
    let i = to_b - 1;
    let j = to_a - 1;

    // A reads the packet: its handshake goes out, the packet waits.
    let (a1, hello) = a.on_tun(packet, t1, a_secret);
    let from_a = handshake_from(ida, b_key, a_secret);
    assert(seq![to_b].skip(1) =~= none);
    let pa0 = a.peers[i];
    let (pa1, hello_too) = pa0.handed(ida, none, message, t1, a_secret);
    assert(a1 == a.with_peer(i, pa1));
    assert(hello == hello_too);
    assert(pa1.session.state is HandshakeSent);
    lemma_with_peer_wf(a, i, pa1);
    let hello_packet = packet_bytes(PacketView::Handshake(from_a));
    assert(hello_packet.len() == 97);
    assert(sent_bytes(hello) == frame_bytes(none, hello_packet));

    // B takes the handshake and answers with its own.
    lemma_decode_of_encode(none, hello_packet);
    lemma_parse_of_packet_bytes(PacketView::Handshake(from_a));
    lemma_peer_found(b, at_a, j);
    let pb0 = b.peers[j];
    assert(pb0.session.accepts_handshake(idb, from_a));
    let (pb1, answer_too) = pb0.shook(idb, from_a, t2, b_secret);
    let (b1, answer) = b.on_datagram(at_a, sent_bytes(hello), t2, b_secret);
    assert(b1 == b.with_peer(j, pb1));
    assert(answer == answer_too);
    assert(pb1.session.state is Established);
    lemma_with_peer_wf(b, j, pb1);
    let from_b = handshake_from(idb, a_key, b_secret);
    let answer_packet = packet_bytes(PacketView::Handshake(from_b));
    assert(answer_packet.len() == 97);
    assert(sent_bytes(answer) == frame_bytes(none, answer_packet));

    // A takes the answer and seals what waited.
    lemma_decode_of_encode(none, answer_packet);
    lemma_parse_of_packet_bytes(PacketView::Handshake(from_b));
    lemma_peer_found(a1, at_b, i);
    assert(pa1.session.accepts_handshake(ida, from_b));
    let (pa2, sealed_too) = pa1.shook(ida, from_b, t3, spare);
    let (a2, sealed) = a1.on_datagram(at_b, sent_bytes(answer), t3, spare);
    assert(a2 == a1.with_peer(i, pa2));
    assert(sealed == sealed_too);
    let key = sealing_key(ida, idb, a_secret, b_secret);
    let aad = encode_path(none);
    assert(pa2.session.state is Established);
    let ready = pa1.session.after_handshake(ida, from_b, t3);
    assert(ready.send_key == key);
    let bytes = aead_sealed(key, nonce_bytes(0), aad, message)->0;
    let data = PacketView::Data { nonce: 0, sealed: bytes };
    crate::bytes::lemma_be_bytes_len(0, 8);
    assert(packet_bytes(data).len() == DATA_HEADER_LEN + bytes.len());
    assert(sent_bytes(sealed) == frame_bytes(none, packet_bytes(data)));

    // B opens the packet and writes it to its tunnel device.
    lemma_decode_of_encode(none, packet_bytes(data));
    lemma_parse_of_packet_bytes(data);
    lemma_peer_found(b1, at_a, j);
    assert(pb1.session.recv_key == key);
    assert(pb1.session.opened_by(aad, 0, bytes) == Some(message));
    lemma_parse_of_message_bytes(MessageView::Packet(packet));
    let pb2 = pb1.opened(aad, 0, bytes, t4);
    lemma_with_peer_wf(b1, j, pb2);
    let (b2, written) = b1.on_datagram(at_a, sent_bytes(sealed), t4, spare);
    assert(b2 == b1.with_peer(j, pb2));
    assert(pb2.session.state is Established);
}

/// Whether `v` has an established session with the peer that directive `d`
/// names, at `endpoint`.
pub open spec fn has_session(v: DispatcherView, d: u8, endpoint: Endpoint) -> bool {
    &&& d != 0
    &&& d - 1 < v.peers.len()
    &&& v.peers[d - 1].endpoint == endpoint
    &&& v.peers[d - 1].session.state is Established
}

/// Whether the session `from` seals `message` for the way `path` into what
/// fits a frame, and the session `to` opens what was sealed to `message`:
/// the two hold the same key, the nonce is new to the receiver, and the
/// cipher opens what it sealed.
pub open spec fn link_carries(
    from: SessionView,
    to: SessionView,
    path: Seq<u8>,
    message: Seq<u8>,
) -> bool {
    let aad = encode_path(path);
    &&& from.state is Established
    &&& to.state is Established
    &&& from.send_key == to.recv_key
    &&& from.send_nonce < u64::MAX
    &&& !to.refused.contains(from.send_nonce)
    &&& aead_sealed(from.send_key, nonce_bytes(from.send_nonce), aad, message) matches Some(
        sealed,
    ) && DATA_HEADER_LEN + sealed.len() <= MAX_PAYLOAD_LEN && aead_opened(
        to.recv_key,
        nonce_bytes(from.send_nonce),
        aad,
        sealed,
    ) == Some(message)
}

/// The frame that carries `message`, sealed by `session`, along `path`.
pub open spec fn sealed_frame(session: SessionView, path: Seq<u8>, message: Seq<u8>) -> Seq<u8> {
    frame_bytes(
        path,
        packet_bytes(
            PacketView::Data {
                nonce: session.send_nonce,
                sealed: aead_sealed(
                    session.send_key,
                    nonce_bytes(session.send_nonce),
                    encode_path(path),
                    message,
                )->0,
            },
        ),
    )
}

/// A packet that node A reads from its tunnel device for node C, which it
/// reaches through its peer B, is written, byte for byte, to the tunnel device
/// of C. A seals it for B with the label of the rest of the way; B opens it,
/// consumes its directive, seals the same message anew for C with the empty
/// label, and writes nothing to its own tunnel device; C opens it. This holds
/// of any three nodes with established sessions A to B and B to C, where A's
/// best route to C leads through B and on by B's directive for C, given that
/// each link carries the message as `link_carries` says.
pub proof fn lemma_packet_crosses_intermediate_node(
    a: DispatcherView,
    b: DispatcherView,
    c: DispatcherView,
    a_to_b: u8,
    b_to_a: u8,
    b_to_c: u8,
    c_to_b: u8,
    at_a: Endpoint,
    at_b: Endpoint,
    at_c: Endpoint,
    packet: Seq<u8>,
    spare: Seq<u8>,
    t1: u64,
    t2: u64,
    t3: u64,
)
    requires
        a.wf(),
        b.wf(),
        c.wf(),
        a.router.own != c.router.own,
        at_a != at_c,
        has_session(a, a_to_b, at_b),
        has_session(b, b_to_a, at_a),
        has_session(b, b_to_c, at_c),
        has_session(c, c_to_b, at_b),
        a.router.best_hop(c.router.own) == Some(a_to_b),
        a.router.routes[(c.router.own, a_to_b)].path == seq![a_to_b, b_to_c],
        ip_destination_of(packet) == Some(c.router.own),
        link_carries(
            a.peers[a_to_b - 1].session,
            b.peers[b_to_a - 1].session,
            seq![b_to_c],
            message_bytes(MessageView::Packet(packet)),
        ),
        link_carries(
            b.peers[b_to_c - 1].session,
            c.peers[c_to_b - 1].session,
            Seq::<u8>::empty(),
            message_bytes(MessageView::Packet(packet)),
        ),
    ensures
        ({
            let message = message_bytes(MessageView::Packet(packet));
            let (a1, first) = a.on_tun(packet, t1, spare);
            let (b1, second) = b.on_datagram(at_a, sent_bytes(first), t2, spare);
            let (c1, written) = c.on_datagram(at_b, sent_bytes(second), t3, spare);
            &&& sends_to(first, at_b)
            &&& sent_bytes(first) == sealed_frame(
                a.peers[a_to_b - 1].session,
                seq![b_to_c],
                message,
            )
            &&& sends_to(second, at_c)
            &&& sent_bytes(second) == sealed_frame(
                b.peers[b_to_c - 1].session,
                Seq::<u8>::empty(),
                message,
            )
            &&& written == Some(ActionView::WriteTun(packet))
        }),
{
    let message = message_bytes(MessageView::Packet(packet));
    let none = Seq::<u8>::empty();
    let rest = seq![b_to_c];
    let i = a_to_b - 1;
    let j = b_to_a - 1;
    let k = b_to_c - 1;
    let l = c_to_b - 1;
    let sa = a.peers[i].session;
    let sb = b.peers[k].session;

    // A seals the packet for B, with the label of the rest of the way.
    assert(seq![a_to_b, b_to_c].skip(1) =~= rest);
    assert(a.router.chosen_hop(c.router.own) == Some(a_to_b));
    let (a1, first) = a.on_tun(packet, t1, spare);
    let (pa1, first_too) = a.peers[i].sent(rest, message, t1);
    assert(first == first_too);
    let s1 = aead_sealed(sa.send_key, nonce_bytes(sa.send_nonce), encode_path(rest), message)->0;
    let d1 = PacketView::Data { nonce: sa.send_nonce, sealed: s1 };
    crate::bytes::lemma_be_bytes_len(sa.send_nonce as nat, 8);
    assert(packet_bytes(d1).len() == DATA_HEADER_LEN + s1.len());
    assert(sent_bytes(first) == frame_bytes(rest, packet_bytes(d1)));

    // B opens it, consumes its directive and seals the message anew for C.
    lemma_decode_of_encode(rest, packet_bytes(d1));
    lemma_parse_of_packet_bytes(d1);
    lemma_peer_found(b, at_a, j);
    assert(j != k) by {
        if j == k {
            assert(b.peers[j].endpoint == at_a);
            assert(b.peers[k].endpoint == at_c);
        }
    }
    let pb1 = b.peers[j].opened(encode_path(rest), sa.send_nonce, s1, t2);
    assert(b.peers[j].session.opened_by(encode_path(rest), sa.send_nonce, s1) == Some(message));
    lemma_with_peer_wf(b, j, pb1);
    let mid = b.with_peer(j, pb1);
    assert(mid.peers[k] == b.peers[k]);
    assert(rest[0] == b_to_c);
    assert(rest.skip(1) =~= none);
    let (pb2, second_too) = b.peers[k].sent(none, message, t2);
    let (b1, second) = b.on_datagram(at_a, sent_bytes(first), t2, spare);
    assert(second == second_too);
    let s2 = aead_sealed(sb.send_key, nonce_bytes(sb.send_nonce), encode_path(none), message)->0;
    let d2 = PacketView::Data { nonce: sb.send_nonce, sealed: s2 };
    crate::bytes::lemma_be_bytes_len(sb.send_nonce as nat, 8);
    assert(packet_bytes(d2).len() == DATA_HEADER_LEN + s2.len());
    assert(sent_bytes(second) == frame_bytes(none, packet_bytes(d2)));

    // C opens it and writes the packet to its tunnel device.
    lemma_decode_of_encode(none, packet_bytes(d2));
    lemma_parse_of_packet_bytes(d2);
    lemma_peer_found(c, at_b, l);
    assert(c.peers[l].session.opened_by(encode_path(none), sb.send_nonce, s2) == Some(message));
    lemma_parse_of_message_bytes(MessageView::Packet(packet));
    let pc1 = c.peers[l].opened(encode_path(none), sb.send_nonce, s2, t3);
    lemma_with_peer_wf(c, l, pc1);
}

} // verus!
