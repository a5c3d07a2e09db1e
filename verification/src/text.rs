//! Keys and addresses as text: hexadecimal digits, two to a byte.

use vstd::prelude::*;

verus! {

/// The value of hexadecimal digit `c`, in either case.
pub open spec fn hex_value(c: u8) -> Option<u8> {
    if 0x30 <= c <= 0x39 {
        Some((c - 0x30) as u8)
    } else if 0x61 <= c <= 0x66 {
        Some((c - 0x61 + 10) as u8)
    } else if 0x41 <= c <= 0x46 {
        Some((c - 0x41 + 10) as u8)
    } else {
        None
    }
}

/// The lower-case hexadecimal digit for `v`, which is below sixteen.
pub open spec fn hex_digit(v: u8) -> u8 {
    if v < 10 {
        (0x30 + v) as u8
    } else {
        (0x61 + v - 10) as u8
    }
}

/// The digits of `bytes`: for each byte the high half, then the low half.
pub open spec fn hex_of(bytes: Seq<u8>) -> Seq<u8> {
    Seq::new(
        2 * bytes.len(),
        |i: int|
            if i % 2 == 0 {
                hex_digit(bytes[i / 2] / 16)
            } else {
                hex_digit(bytes[i / 2] % 16)
            },
    )
}

/// Whether the `i`-th pair of digits of `text` spells the `i`-th byte of `bytes`.
pub open spec fn spells_byte(text: Seq<u8>, bytes: Seq<u8>, i: int) -> bool {
    &&& hex_value(text[2 * i]) is Some
    &&& hex_value(text[2 * i + 1]) is Some
    &&& bytes[i] == 16 * hex_value(text[2 * i])->0 + hex_value(text[2 * i + 1])->0
}

/// Whether `text` spells `bytes` in hexadecimal digits of either case.
pub open spec fn is_hex_of(text: Seq<u8>, bytes: Seq<u8>) -> bool {
    &&& text.len() == 2 * bytes.len()
    &&& forall|i: int| 0 <= i < bytes.len() ==> spells_byte(text, bytes, i)
}

/// Whether `text` consists of hexadecimal digits alone.
pub open spec fn all_hex(text: Seq<u8>) -> bool {
    forall|i: int| 0 <= i < text.len() ==> hex_value(#[trigger] text[i]) is Some
}

/// The characters that stand for ASCII bytes.
pub open spec fn ascii_chars(bytes: Seq<u8>) -> Seq<char> {
    Seq::new(bytes.len(), |i: int| bytes[i] as char)
}

/// The digits written for bytes spell those bytes, and no others.
pub proof fn lemma_hex_round_trip(bytes: Seq<u8>, other: Seq<u8>)
    ensures
        is_hex_of(hex_of(bytes), bytes),
        all_hex(hex_of(bytes)),
        is_hex_of(hex_of(bytes), other) ==> other == bytes,
{
    let text = hex_of(bytes);
    assert forall|i: int| 0 <= i < bytes.len() implies spells_byte(text, bytes, i) by {
        assert((2 * i) % 2 == 0 && (2 * i) / 2 == i);
        assert((2 * i + 1) % 2 == 1 && (2 * i + 1) / 2 == i);
    }
    assert forall|i: int| 0 <= i < text.len() implies hex_value(#[trigger] text[i]) is Some by {
        assert(0 <= i / 2 < bytes.len());
    }
    if is_hex_of(text, other) {
        assert forall|i: int| 0 <= i < bytes.len() implies other[i] == bytes[i] by {
            assert(spells_byte(text, other, i));
            assert(spells_byte(text, bytes, i));
        }
        assert(other =~= bytes);
    }
}

fn digit_value(c: u8) -> (v: Option<u8>)
    ensures
        v == hex_value(c),
        v matches Some(x) ==> x < 16,
{
    if 0x30 <= c && c <= 0x39 {
        Some(c - 0x30)
    } else if 0x61 <= c && c <= 0x66 {
        Some(c - 0x61 + 10)
    } else if 0x41 <= c && c <= 0x46 {
        Some(c - 0x41 + 10)
    } else {
        None
    }
}

fn digit_for(v: u8) -> (c: u8)
    requires
        v < 16,
    ensures
        c == hex_digit(v),
        c < 128,
{
    if v < 10 {
        0x30 + v
    } else {
        0x61 + v - 10
    }
}

/// Writes `bytes` as lower-case hexadecimal digits.
pub fn to_hex(bytes: &[u8]) -> (text: Vec<u8>)
    ensures
        text@ == hex_of(bytes@),
        forall|i: int| 0 <= i < text@.len() ==> text@[i] < 128,
{
    let mut text: Vec<u8> = Vec::new();
    let mut i: usize = 0;
    while i < bytes.len()
        invariant
            i <= bytes@.len(),
            text@.len() == 2 * i,
            forall|k: int| 0 <= k < 2 * i ==> text@[k] == hex_of(bytes@)[k] && text@[k] < 128,
        decreases bytes@.len() - i,
    {
        let b = bytes[i];
        text.push(digit_for(b / 16));
        text.push(digit_for(b % 16));
        proof {
            assert((2 * i) % 2 == 0 && (2 * i) / 2 == i);
            assert((2 * i + 1) % 2 == 1 && (2 * i + 1) / 2 == i);
        }
        i += 1;
    }
    assert(text@ =~= hex_of(bytes@));
    text
}

/// Why text is not the hexadecimal form of a key.
#[derive(Clone, Copy, Debug, PartialEq, Eq, Structural)]
pub enum KeyError {
    /// The text does not have two digits for each byte.
    WrongLength,
    /// The text holds something else than hexadecimal digits.
    NotHex,
}

/// Reads `N` bytes from `2 * N` hexadecimal digits of either case.
pub fn from_hex<const N: usize>(text: &[u8]) -> (parsed: Result<[u8; N], KeyError>)
    ensures
        match parsed {
            Ok(bytes) => is_hex_of(text@, bytes@),
            Err(KeyError::WrongLength) => text@.len() != 2 * N,
            Err(KeyError::NotHex) => text@.len() == 2 * N && !all_hex(text@),
        },
{
    let given: usize = text.len();
    if N > usize::MAX / 2 || given != 2 * N {
        return Err(KeyError::WrongLength);
    }
    let mut bytes: [u8; N] = [0u8; N];
    let mut i: usize = 0;
    while i < N
        invariant
            i <= N,
            2 * N <= usize::MAX,
            text@.len() == 2 * N,
            forall|k: int| 0 <= k < i ==> spells_byte(text@, bytes@, k),
        decreases N - i,
    {
        let ghost prior = bytes@;
        let high = match digit_value(text[2 * i]) {
            None => {
                return Err(KeyError::NotHex);
            },
            Some(v) => v,
        };
        let low = match digit_value(text[2 * i + 1]) {
            None => {
                return Err(KeyError::NotHex);
            },
            Some(v) => v,
        };
        bytes[i] = 16 * high + low;
        proof {
            assert forall|k: int| 0 <= k < i + 1 implies spells_byte(text@, bytes@, k) by {
                if k < i {
                    assert(spells_byte(text@, prior, k));
                }
            }
        }
        i += 1;
    }
    Ok(bytes)
}

/// Calls `String::from_utf8` on bytes that are all ASCII. Claimed: the string
/// holds one character for each byte, the one with the byte's code.
#[verifier::external_body]
pub(crate) fn ascii_string(bytes: Vec<u8>) -> (text: String)
    requires
        forall|i: int| 0 <= i < bytes@.len() ==> bytes@[i] < 128,
    ensures
        text@ == ascii_chars(bytes@),
{
    String::from_utf8(bytes).unwrap_or_default()
}

} // verus!
