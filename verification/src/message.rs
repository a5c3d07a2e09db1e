//! What a sealed packet holds once it is opened: an IP packet on its way, or a
//! route advertisement between two direct peers.

use vstd::prelude::*;
use crate::bytes::{append_range, array_at, be_bytes, be_decode, be_encode, be_value};
use crate::bytes::{lemma_be_bytes_len, lemma_be_bytes_of_value, lemma_be_value_bound};
use crate::bytes::{lemma_be_value_of_bytes, lemma_pow256_values};
use crate::identity::{Address, ADDRESS_LEN};
use crate::label::{decode_path, encode_path, is_label_encoding, is_path, SwitchLabel, LABEL_LEN};
use crate::label::{lemma_decode_of_encode_path, lemma_encode_of_decode_path};

verus! {

/// The first byte of a message that carries an IP packet.
pub const PACKET_KIND: u8 = 0;

/// The first byte of a route advertisement.
pub const ADVERT_KIND: u8 = 1;

/// A route advertisement is always this long.
pub const ADVERT_LEN: usize = 29;

/// An IP header that names a destination is at least this long.
pub const IP_HEADER_LEN: usize = 40;

/// Where the destination stands in an IP header.
pub const IP_DESTINATION_AT: usize = 24;

/// The version that the first four bits of an IP header must give.
pub const IP_VERSION: u8 = 6;

/// A message between two nodes.
#[derive(Debug)]
pub enum Message {
    /// An IP packet.
    Packet(Vec<u8>),
    /// The sender reaches `destination` in `metric` hops along `label`.
    Advert { destination: Address, label: SwitchLabel, metric: u32 },
}

/// A message as plain values.
pub enum MessageView {
    Packet(Seq<u8>),
    Advert { destination: Seq<u8>, path: Seq<u8>, metric: u32 },
}

impl View for Message {
    type V = MessageView;

    open spec fn view(&self) -> MessageView {
        match self {
            Message::Packet(p) => MessageView::Packet(p@),
            Message::Advert { destination, label, metric } => MessageView::Advert {
                destination: destination@,
                path: label@,
                metric: *metric,
            },
        }
    }
}

impl Message {
    /// The label of an advertisement is a label.
    pub open spec fn wf(&self) -> bool {
        match self {
            Message::Packet(_) => true,
            Message::Advert { destination, label, metric } => label.wf(),
        }
    }
}

impl MessageView {
    /// An advertisement names a full address and a path.
    pub open spec fn wf(self) -> bool {
        match self {
            MessageView::Packet(_) => true,
            MessageView::Advert { destination, path, metric } => destination.len() == ADDRESS_LEN
                && is_path(path),
        }
    }
}

/// The bytes of a message: its kind, then its fields in order.
pub open spec fn message_bytes(m: MessageView) -> Seq<u8> {
    match m {
        MessageView::Packet(p) => seq![PACKET_KIND] + p,
        MessageView::Advert { destination, path, metric } => seq![ADVERT_KIND] + destination
            + be_bytes(metric as nat, 4) + encode_path(path),
    }
}

/// The message that `b` spells, if it spells one.
pub open spec fn parse_message(b: Seq<u8>) -> Option<MessageView> {
    if b.len() >= 1 && b[0] == PACKET_KIND {
        Some(MessageView::Packet(b.skip(1)))
    } else if b.len() == ADVERT_LEN && b[0] == ADVERT_KIND && is_label_encoding(
        b.subrange(21, 29),
    ) {
        Some(
            MessageView::Advert {
                destination: b.subrange(1, 17),
                path: decode_path(b.subrange(21, 29)),
                metric: be_value(b.subrange(17, 21)) as u32,
            },
        )
    } else {
        None
    }
}

/// Parsing the bytes of a message gives the message back.
pub proof fn lemma_parse_of_message_bytes(m: MessageView)
    requires
        m.wf(),
    ensures
        parse_message(message_bytes(m)) == Some(m),
{
    let b = message_bytes(m);
    match m {
        MessageView::Packet(p) => {
            assert(b.skip(1) =~= p);
        },
        MessageView::Advert { destination, path, metric } => {
            lemma_be_bytes_len(metric as nat, 4);
            lemma_pow256_values();
            lemma_be_value_of_bytes(metric as nat, 4);
            lemma_decode_of_encode_path(path);
            assert(b.subrange(1, 17) =~= destination);
            assert(b.subrange(17, 21) =~= be_bytes(metric as nat, 4));
            assert(b.subrange(21, 29) =~= encode_path(path));
        },
    }
}

/// Bytes that parse as a message are the bytes of that message.
pub proof fn lemma_message_bytes_of_parse(b: Seq<u8>)
    requires
        parse_message(b) is Some,
    ensures
        parse_message(b)->0.wf(),
        message_bytes(parse_message(b)->0) == b,
{
    if b.len() >= 1 && b[0] == PACKET_KIND {
        assert(message_bytes(parse_message(b)->0) =~= b);
    } else {
        let n = b.subrange(17, 21);
        lemma_be_value_bound(n);
        lemma_pow256_values();
        lemma_be_bytes_of_value(n);
        lemma_encode_of_decode_path(b.subrange(21, 29));
        assert(message_bytes(parse_message(b)->0) =~= b);
    }
}

/// Writes a message as bytes.
pub fn encode_message(m: &Message) -> (out: Vec<u8>)
    requires
        m.wf(),
    ensures
        out@ == message_bytes(m@),
{
    let mut out: Vec<u8> = Vec::new();
    match m {
        Message::Packet(p) => {
            out.push(PACKET_KIND);
            append_range(&mut out, p.as_slice(), 0, p.len());
            proof {
                assert(p@.subrange(0, p@.len() as int) =~= p@);
                assert(out@ =~= message_bytes(m@));
            }
        },
        Message::Advert { destination, label, metric } => {
            out.push(ADVERT_KIND);
            append_range(&mut out, destination.bytes.as_slice(), 0, ADDRESS_LEN);
            let hops = be_encode(*metric as u128, 4);
            append_range(&mut out, hops.as_slice(), 0, 4);
            let way = label.to_bytes();
            append_range(&mut out, way.as_slice(), 0, LABEL_LEN);
            proof {
                assert(destination.bytes@.subrange(0, ADDRESS_LEN as int) =~= destination@);
                assert(hops@.subrange(0, 4) =~= hops@);
                assert(way@.subrange(0, LABEL_LEN as int) =~= way@);
                assert(out@ =~= message_bytes(m@));
            }
        },
    }
    out
}

/// The message that carries IP packet `packet`, as bytes.
pub fn encode_packet_message(packet: &[u8]) -> (out: Vec<u8>)
    ensures
        out@ == message_bytes(MessageView::Packet(packet@)),
{
    let mut out: Vec<u8> = Vec::new();
    out.push(PACKET_KIND);
    append_range(&mut out, packet, 0, packet.len());
    proof {
        assert(packet@.subrange(0, packet@.len() as int) =~= packet@);
        assert(out@ =~= message_bytes(MessageView::Packet(packet@)));
    }
    out
}

/// Reads a message. Any bytes may be given; what spells no message gives `None`.
pub fn decode_message(b: &[u8]) -> (parsed: Option<Message>)
    ensures
        parsed is Some <==> parse_message(b@) is Some,
        parsed matches Some(m) ==> m.wf() && parse_message(b@) == Some(m@) && message_bytes(m@)
            == b@,
{
    if b.len() >= 1 && b[0] == PACKET_KIND {
        let mut p: Vec<u8> = Vec::new();
        append_range(&mut p, b, 1, b.len());
        proof {
            assert(p@ =~= b@.skip(1));
            lemma_message_bytes_of_parse(b@);
        }
        Some(Message::Packet(p))
    } else if b.len() == ADVERT_LEN && b[0] == ADVERT_KIND {
        match SwitchLabel::from_bytes(vstd::slice::slice_subrange(b, 21, 29)) {
            None => None,
            Some(label) => {
                let destination = Address { bytes: array_at::<16>(b, 1) };
                let hops = be_decode(vstd::slice::slice_subrange(b, 17, 21));
                proof {
                    lemma_be_value_bound(b@.subrange(17, 21));
                    lemma_pow256_values();
                    lemma_message_bytes_of_parse(b@);
                }
                Some(Message::Advert { destination, label, metric: hops as u32 })
            },
        }
    } else {
        None
    }
}

/// The address that IP packet `packet` is for, if `packet` has a full header
/// of the right version.
pub open spec fn ip_destination_of(packet: Seq<u8>) -> Option<Seq<u8>> {
    if packet.len() >= IP_HEADER_LEN && packet[0] / 16 == IP_VERSION {
        Some(packet.subrange(IP_DESTINATION_AT as int, IP_HEADER_LEN as int))
    } else {
        None
    }
}

/// Reads the destination from the header of an IP packet.
pub fn ip_destination(packet: &[u8]) -> (destination: Option<Address>)
    ensures
        destination is Some <==> ip_destination_of(packet@) is Some,
        destination matches Some(a) ==> ip_destination_of(packet@) == Some(a@),
{
    if packet.len() >= IP_HEADER_LEN && packet[0] / 16 == IP_VERSION {
        Some(Address { bytes: array_at::<16>(packet, IP_DESTINATION_AT) })
    } else {
        None
    }
}

} // verus!
