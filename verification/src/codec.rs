//! The frame that every datagram carries: a switch label, the payload's length
//! and the payload.

use vstd::prelude::*;
use crate::bytes::{append_range, be_bytes, be_decode, be_encode, be_value};
use crate::bytes::{lemma_be_bytes_len, lemma_be_value_of_bytes, lemma_pow256_values};
use crate::label::{decode_path, encode_path, is_label_encoding, is_path, SwitchLabel, LABEL_LEN};
use crate::label::lemma_decode_of_encode_path;

verus! {

/// Bytes in front of the payload: the label and a two-byte length.
pub const HEADER_LEN: usize = 10;

/// The longest payload whose length the header can state.
pub const MAX_PAYLOAD_LEN: usize = 65535;

/// Why bytes are no frame.
#[derive(Clone, Copy, Debug, PartialEq, Eq, Structural)]
pub enum MalformedFrame {
    /// The header is cut short, or fewer payload bytes follow than it announces.
    Truncated,
    /// More bytes follow the header than it announces.
    InvalidLength,
    /// The first eight bytes are no switch label.
    UnparseableLabel,
}

/// The bytes of the frame that carries `payload` along `path`.
pub open spec fn frame_bytes(path: Seq<u8>, payload: Seq<u8>) -> Seq<u8> {
    encode_path(path) + be_bytes(payload.len(), 2) + payload
}

/// The payload length that the header of `b` announces.
pub open spec fn announced_len(b: Seq<u8>) -> nat
    recommends
        b.len() >= HEADER_LEN,
{
    be_value(b.subrange(LABEL_LEN as int, HEADER_LEN as int))
}

/// What is wrong with `b` as a frame, if anything; the first fault found counts.
pub open spec fn frame_fault(b: Seq<u8>) -> Option<MalformedFrame> {
    if b.len() < HEADER_LEN {
        Some(MalformedFrame::Truncated)
    } else if b.len() - HEADER_LEN < announced_len(b) {
        Some(MalformedFrame::Truncated)
    } else if b.len() - HEADER_LEN > announced_len(b) {
        Some(MalformedFrame::InvalidLength)
    } else if !is_label_encoding(b.subrange(0, LABEL_LEN as int)) {
        Some(MalformedFrame::UnparseableLabel)
    } else {
        None
    }
}

/// The path in the label of frame `b`.
pub open spec fn frame_path(b: Seq<u8>) -> Seq<u8>
    recommends
        b.len() >= HEADER_LEN,
{
    decode_path(b.subrange(0, LABEL_LEN as int))
}

/// The payload of frame `b`.
pub open spec fn frame_payload(b: Seq<u8>) -> Seq<u8>
    recommends
        b.len() >= HEADER_LEN,
{
    b.skip(HEADER_LEN as int)
}

/// Decoding an encoded frame gives back the label's path and the payload.
pub proof fn lemma_decode_of_encode(path: Seq<u8>, payload: Seq<u8>)
    requires
        is_path(path),
        payload.len() <= MAX_PAYLOAD_LEN,
    ensures
        frame_fault(frame_bytes(path, payload)) is None,
        frame_path(frame_bytes(path, payload)) == path,
        frame_payload(frame_bytes(path, payload)) == payload,
{
    let b = frame_bytes(path, payload);
    lemma_be_bytes_len(payload.len(), 2);
    lemma_pow256_values();
    lemma_be_value_of_bytes(payload.len(), 2);
    lemma_decode_of_encode_path(path);
    assert(b.subrange(0, LABEL_LEN as int) =~= encode_path(path));
    assert(b.subrange(LABEL_LEN as int, HEADER_LEN as int) =~= be_bytes(payload.len(), 2));
    assert(b.skip(HEADER_LEN as int) =~= payload);
}

/// A frame without fault is the encoding of its own path and payload.
pub proof fn lemma_encode_of_decode(b: Seq<u8>)
    requires
        frame_fault(b) is None,
    ensures
        is_path(frame_path(b)),
        frame_payload(b).len() <= MAX_PAYLOAD_LEN,
        frame_bytes(frame_path(b), frame_payload(b)) == b,
{
    let head = b.subrange(0, LABEL_LEN as int);
    let len = b.subrange(LABEL_LEN as int, HEADER_LEN as int);
    crate::label::lemma_encode_of_decode_path(head);
    crate::bytes::lemma_be_value_bound(len);
    crate::bytes::lemma_be_bytes_of_value(len);
    lemma_pow256_values();
    assert(frame_bytes(frame_path(b), frame_payload(b)) =~= b);
}

/// Frames `payload` for the way that `label` names. There is no frame for a
/// payload longer than `MAX_PAYLOAD_LEN`.
pub fn encode(label: &SwitchLabel, payload: &[u8]) -> (frame: Option<Vec<u8>>)
    requires
        label.wf(),
    ensures
        frame is Some <==> payload@.len() <= MAX_PAYLOAD_LEN,
        frame matches Some(bytes) ==> bytes@ == frame_bytes(label@, payload@),
{
    if payload.len() > MAX_PAYLOAD_LEN {
        return None;
    }
    let head = label.to_bytes();
    let len = be_encode(payload.len() as u128, 2);
    let mut out: Vec<u8> = Vec::new();
    append_range(&mut out, head.as_slice(), 0, LABEL_LEN);
    append_range(&mut out, len.as_slice(), 0, 2);
    append_range(&mut out, payload, 0, payload.len());
    proof {
        lemma_be_bytes_len(payload@.len(), 2);
        assert(head@.subrange(0, LABEL_LEN as int) =~= head@);
        assert(len@.subrange(0, 2) =~= len@);
        assert(payload@.subrange(0, payload@.len() as int) =~= payload@);
        assert(out@ =~= frame_bytes(label@, payload@));
    }
    Some(out)
}

/// Takes a frame apart. Any bytes may be given: what is no frame is refused
/// with the first fault found, and nothing outside `bytes` is read.
pub fn decode(bytes: &[u8]) -> (parsed: Result<(SwitchLabel, Vec<u8>), MalformedFrame>)
    ensures
        match parsed {
            Ok((label, payload)) => {
                &&& frame_fault(bytes@) is None
                &&& label.wf()
                &&& label@ == frame_path(bytes@)
                &&& payload@ == frame_payload(bytes@)
                &&& bytes@ == frame_bytes(label@, payload@)
            },
            Err(fault) => frame_fault(bytes@) == Some(fault),
        },
{
    if bytes.len() < HEADER_LEN {
        return Err(MalformedFrame::Truncated);
    }
    let announced = be_decode(vstd::slice::slice_subrange(bytes, LABEL_LEN, HEADER_LEN));
    let carried = bytes.len() - HEADER_LEN;
    if (carried as u128) < announced {
        return Err(MalformedFrame::Truncated);
    }
    if (carried as u128) > announced {
        return Err(MalformedFrame::InvalidLength);
    }
    match SwitchLabel::from_bytes(vstd::slice::slice_subrange(bytes, 0, LABEL_LEN)) {
        None => Err(MalformedFrame::UnparseableLabel),
        Some(label) => {
            let mut payload: Vec<u8> = Vec::new();
            append_range(&mut payload, bytes, HEADER_LEN, bytes.len());
            proof {
                assert(payload@ =~= bytes@.skip(HEADER_LEN as int));
                lemma_encode_of_decode(bytes@);
            }
            Ok((label, payload))
        },
    }
}

} // verus!
