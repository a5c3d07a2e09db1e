//! What a frame's payload holds between two direct peers: a handshake or
//! sealed data.

use vstd::prelude::*;
use crate::bytes::{append_range, array_at, be_bytes, be_decode, be_encode, be_value};
use crate::bytes::{lemma_be_bytes_len, lemma_be_bytes_of_value, lemma_be_value_bound};
use crate::bytes::{lemma_be_value_of_bytes, lemma_pow256_values};
use crate::identity::{PublicKey, KEY_LEN};

verus! {

/// The first byte of a handshake packet.
pub const HANDSHAKE_KIND: u8 = 1;

/// The first byte of a data packet.
pub const DATA_KIND: u8 = 2;

/// A handshake packet is always this long.
pub const HANDSHAKE_LEN: usize = 97;

/// Bytes in front of the sealed part of a data packet: the kind and the nonce.
pub const DATA_HEADER_LEN: usize = 9;

/// Bytes in an authentication tag.
pub const TAG_LEN: usize = 32;

/// The opening message of a session: who sends it, the sender's key for this
/// session only, and a tag that only the two long-term keys can make.
#[derive(Clone, Copy, Debug)]
pub struct Handshake {
    pub sender: PublicKey,
    pub ephemeral: [u8; 32],
    pub tag: [u8; 32],
}

/// A handshake as plain bytes.
pub struct HandshakeView {
    pub sender: Seq<u8>,
    pub ephemeral: Seq<u8>,
    pub tag: Seq<u8>,
}

impl View for Handshake {
    type V = HandshakeView;

    open spec fn view(&self) -> HandshakeView {
        HandshakeView { sender: self.sender@, ephemeral: self.ephemeral@, tag: self.tag@ }
    }
}

/// A packet between two direct peers.
#[derive(Debug)]
pub enum Packet {
    Handshake(Handshake),
    Data { nonce: u64, sealed: Vec<u8> },
}

/// A packet as plain values.
pub enum PacketView {
    Handshake(HandshakeView),
    Data { nonce: u64, sealed: Seq<u8> },
}

impl View for Packet {
    type V = PacketView;

    open spec fn view(&self) -> PacketView {
        match self {
            Packet::Handshake(h) => PacketView::Handshake(h@),
            Packet::Data { nonce, sealed } => PacketView::Data { nonce: *nonce, sealed: sealed@ },
        }
    }
}

impl PacketView {
    /// Keys and tags have their fixed lengths.
    pub open spec fn wf(self) -> bool {
        match self {
            PacketView::Handshake(h) => h.sender.len() == KEY_LEN && h.ephemeral.len() == KEY_LEN
                && h.tag.len() == TAG_LEN,
            PacketView::Data { .. } => true,
        }
    }
}

/// The bytes of a packet: its kind, then its fields in order.
pub open spec fn packet_bytes(p: PacketView) -> Seq<u8> {
    match p {
        PacketView::Handshake(h) => seq![HANDSHAKE_KIND] + h.sender + h.ephemeral + h.tag,
        PacketView::Data { nonce, sealed } => seq![DATA_KIND] + be_bytes(nonce as nat, 8) + sealed,
    }
}

/// The packet that `b` spells, if it spells one.
pub open spec fn parse_packet(b: Seq<u8>) -> Option<PacketView> {
    if b.len() == HANDSHAKE_LEN && b[0] == HANDSHAKE_KIND {
        Some(
            PacketView::Handshake(
                HandshakeView {
                    sender: b.subrange(1, 33),
                    ephemeral: b.subrange(33, 65),
                    tag: b.subrange(65, 97),
                },
            ),
        )
    } else if b.len() >= DATA_HEADER_LEN && b[0] == DATA_KIND {
        Some(
            PacketView::Data {
                nonce: be_value(b.subrange(1, 9)) as u64,
                sealed: b.skip(DATA_HEADER_LEN as int),
            },
        )
    } else {
        None
    }
}

/// Parsing the bytes of a packet gives the packet back.
pub proof fn lemma_parse_of_packet_bytes(p: PacketView)
    requires
        p.wf(),
    ensures
        parse_packet(packet_bytes(p)) == Some(p),
{
    let b = packet_bytes(p);
    match p {
        PacketView::Handshake(h) => {
            assert(b.subrange(1, 33) =~= h.sender);
            assert(b.subrange(33, 65) =~= h.ephemeral);
            assert(b.subrange(65, 97) =~= h.tag);
        },
        PacketView::Data { nonce, sealed } => {
            lemma_be_bytes_len(nonce as nat, 8);
            lemma_pow256_values();
            lemma_be_value_of_bytes(nonce as nat, 8);
            assert(b.subrange(1, 9) =~= be_bytes(nonce as nat, 8));
            assert(b.skip(DATA_HEADER_LEN as int) =~= sealed);
        },
    }
}

/// Bytes that parse as a packet are the bytes of that packet.
pub proof fn lemma_packet_bytes_of_parse(b: Seq<u8>)
    requires
        parse_packet(b) is Some,
    ensures
        parse_packet(b)->0.wf(),
        packet_bytes(parse_packet(b)->0) == b,
{
    if b.len() == HANDSHAKE_LEN && b[0] == HANDSHAKE_KIND {
        assert(packet_bytes(parse_packet(b)->0) =~= b);
    } else {
        let n = b.subrange(1, 9);
        lemma_be_value_bound(n);
        lemma_pow256_values();
        lemma_be_bytes_of_value(n);
        assert(packet_bytes(parse_packet(b)->0) =~= b);
    }
}

/// Writes a packet as bytes.
pub fn encode_packet(p: &Packet) -> (out: Vec<u8>)
    ensures
        out@ == packet_bytes(p@),
{
    let mut out: Vec<u8> = Vec::new();
    match p {
        Packet::Handshake(h) => {
            out.push(HANDSHAKE_KIND);
            append_range(&mut out, h.sender.bytes.as_slice(), 0, KEY_LEN);
            append_range(&mut out, h.ephemeral.as_slice(), 0, KEY_LEN);
            append_range(&mut out, h.tag.as_slice(), 0, TAG_LEN);
            proof {
                assert(h.sender.bytes@.subrange(0, KEY_LEN as int) =~= h.sender@);
                assert(h.ephemeral@.subrange(0, KEY_LEN as int) =~= h.ephemeral@);
                assert(h.tag@.subrange(0, TAG_LEN as int) =~= h.tag@);
                assert(out@ =~= packet_bytes(p@));
            }
        },
        Packet::Data { nonce, sealed } => {
            out.push(DATA_KIND);
            let counter = be_encode(*nonce as u128, 8);
            append_range(&mut out, counter.as_slice(), 0, 8);
            append_range(&mut out, sealed.as_slice(), 0, sealed.len());
            proof {
                assert(counter@.subrange(0, 8) =~= counter@);
                assert(sealed@.subrange(0, sealed@.len() as int) =~= sealed@);
                assert(out@ =~= packet_bytes(p@));
            }
        },
    }
    out
}

/// Reads a packet. Any bytes may be given; what spells no packet gives `None`.
pub fn decode_packet(b: &[u8]) -> (parsed: Option<Packet>)
    ensures
        parsed is Some <==> parse_packet(b@) is Some,
        parsed matches Some(p) ==> parse_packet(b@) == Some(p@) && packet_bytes(p@) == b@,
{
    if b.len() == HANDSHAKE_LEN && b[0] == HANDSHAKE_KIND {
        let h = Handshake {
            sender: PublicKey { bytes: array_at::<32>(b, 1) },
            ephemeral: array_at::<32>(b, 33),
            tag: array_at::<32>(b, 65),
        };
        proof {
            lemma_packet_bytes_of_parse(b@);
        }
        Some(Packet::Handshake(h))
    } else if b.len() >= DATA_HEADER_LEN && b[0] == DATA_KIND {
        let counter = be_decode(vstd::slice::slice_subrange(b, 1, 9));
        let mut sealed: Vec<u8> = Vec::new();
        append_range(&mut sealed, b, DATA_HEADER_LEN, b.len());
        proof {
            lemma_be_value_bound(b@.subrange(1, 9));
            lemma_pow256_values();
            assert(sealed@ =~= b@.skip(DATA_HEADER_LEN as int));
            lemma_packet_bytes_of_parse(b@);
        }
        Some(Packet::Data { nonce: counter as u64, sealed })
    } else {
        None
    }
}

} // verus!
