//! Keys, self-certifying addresses and the identity of the local node.

use vstd::prelude::*;
use crate::bytes::{be_decode, be_value, bytes_equal};
use crate::crypto::{random_seed, sha512, sha512_of, x25519, x25519_of};
use crate::text::{all_hex, ascii_chars, ascii_string, from_hex, hex_of, is_hex_of};
use crate::text::{to_hex, KeyError};

verus! {

/// Bytes in a private or a public key.
pub const KEY_LEN: usize = 32;

/// Bytes in an address.
pub const ADDRESS_LEN: usize = 16;

/// The first byte of every address that may be used.
pub const ADDRESS_PREFIX: u8 = 0xfc;

/// How many keys `generate` draws before it gives up.
pub const GENERATE_ATTEMPTS: u32 = 1048576;

/// The u-coordinate of the X25519 base point.
pub open spec fn base_point() -> Seq<u8> {
    Seq::new(KEY_LEN as nat, |i: int| if i == 0 { 9u8 } else { 0u8 })
}

/// The public key that belongs to a private key.
pub open spec fn public_key_of(private_key: Seq<u8>) -> Seq<u8> {
    x25519_of(private_key, base_point())
}

/// The address that a public key certifies: the first sixteen bytes of the
/// digest of its digest.
pub open spec fn address_of(public_key: Seq<u8>) -> Seq<u8> {
    sha512_of(sha512_of(public_key)).take(ADDRESS_LEN as int)
}

/// An address may be used only if it begins with `ADDRESS_PREFIX`.
pub open spec fn is_valid_address(address: Seq<u8>) -> bool {
    address.len() == ADDRESS_LEN && address[0] == ADDRESS_PREFIX
}

/// A secret scalar.
#[derive(Clone, Copy, Debug, Eq)]
pub struct PrivateKey {
    pub bytes: [u8; 32],
}

/// The public half of a key pair.
#[derive(Clone, Copy, Debug, Eq)]
pub struct PublicKey {
    pub bytes: [u8; 32],
}

/// A network address.
#[derive(Clone, Copy, Debug, Eq)]
pub struct Address {
    pub bytes: [u8; 16],
}

impl View for PrivateKey {
    type V = Seq<u8>;

    open spec fn view(&self) -> Seq<u8> {
        self.bytes@
    }
}

impl View for PublicKey {
    type V = Seq<u8>;

    open spec fn view(&self) -> Seq<u8> {
        self.bytes@
    }
}

impl View for Address {
    type V = Seq<u8>;

    open spec fn view(&self) -> Seq<u8> {
        self.bytes@
    }
}

impl PartialEq for PrivateKey {
    fn eq(&self, other: &PrivateKey) -> (same: bool) {
        bytes_equal(self.bytes.as_slice(), other.bytes.as_slice())
    }
}

impl vstd::std_specs::cmp::PartialEqSpecImpl for PrivateKey {
    open spec fn obeys_eq_spec() -> bool {
        true
    }

    open spec fn eq_spec(&self, other: &PrivateKey) -> bool {
        self@ == other@
    }
}

impl PartialEq for PublicKey {
    fn eq(&self, other: &PublicKey) -> (same: bool) {
        bytes_equal(self.bytes.as_slice(), other.bytes.as_slice())
    }
}

impl vstd::std_specs::cmp::PartialEqSpecImpl for PublicKey {
    open spec fn obeys_eq_spec() -> bool {
        true
    }

    open spec fn eq_spec(&self, other: &PublicKey) -> bool {
        self@ == other@
    }
}

impl PartialEq for Address {
    fn eq(&self, other: &Address) -> (same: bool) {
        bytes_equal(self.bytes.as_slice(), other.bytes.as_slice())
    }
}

impl vstd::std_specs::cmp::PartialEqSpecImpl for Address {
    open spec fn obeys_eq_spec() -> bool {
        true
    }

    open spec fn eq_spec(&self, other: &Address) -> bool {
        self@ == other@
    }
}

/// Keys and addresses with the same bytes are the same value.
pub proof fn lemma_same_bytes_same_value(a: Address, b: Address, p: PublicKey, q: PublicKey)
    ensures
        a@ == b@ <==> a == b,
        p@ == q@ <==> p == q,
{
    if a@ == b@ {
        assert(a.bytes =~= b.bytes);
    }
    if p@ == q@ {
        assert(p.bytes =~= q.bytes);
    }
}

/// The bytes that text is stored as.
pub open spec fn text_bytes(text: Seq<char>) -> Seq<u8> {
    vstd::utf8::encode_utf8(text)
}

/// The text of an address: its hexadecimal digits in eight groups of four,
/// with a colon between the groups.
pub open spec fn address_text(address: Seq<u8>) -> Seq<u8> {
    Seq::new(
        39,
        |i: int|
            if i % 5 == 4 {
                0x3au8
            } else {
                hex_of(address)[(i / 5) * 4 + i % 5]
            },
    )
}

impl PrivateKey {
    /// Reads a private key from sixty-four hexadecimal digits.
    pub fn from_string(text: &str) -> (parsed: Result<PrivateKey, KeyError>)
        ensures
            match parsed {
                Ok(key) => is_hex_of(text_bytes(text@), key@),
                Err(KeyError::WrongLength) => text_bytes(text@).len() != 2 * KEY_LEN,
                Err(KeyError::NotHex) => text_bytes(text@).len() == 2 * KEY_LEN && !all_hex(
                    text_bytes(text@),
                ),
            },
    {
        match from_hex::<32>(text.as_bytes()) {
            Ok(bytes) => Ok(PrivateKey { bytes }),
            Err(e) => Err(e),
        }
    }

    /// The key as sixty-four hexadecimal digits.
    pub fn to_text(&self) -> (text: String)
        ensures
            text@ == ascii_chars(hex_of(self@)),
    {
        ascii_string(to_hex(self.bytes.as_slice()))
    }

    /// Derives the public key.
    pub fn public_key(&self) -> (public_key: PublicKey)
        ensures
            public_key@ == public_key_of(self@),
    {
        let mut base: [u8; 32] = [0u8; 32];
        base[0] = 9;
        assert(base@ =~= base_point());
        PublicKey { bytes: x25519(&self.bytes, &base) }
    }
}

impl PublicKey {
    /// Reads a public key from sixty-four hexadecimal digits.
    pub fn from_string(text: &str) -> (parsed: Result<PublicKey, KeyError>)
        ensures
            match parsed {
                Ok(key) => is_hex_of(text_bytes(text@), key@),
                Err(KeyError::WrongLength) => text_bytes(text@).len() != 2 * KEY_LEN,
                Err(KeyError::NotHex) => text_bytes(text@).len() == 2 * KEY_LEN && !all_hex(
                    text_bytes(text@),
                ),
            },
    {
        match from_hex::<32>(text.as_bytes()) {
            Ok(bytes) => Ok(PublicKey { bytes }),
            Err(e) => Err(e),
        }
    }

    /// The key as sixty-four hexadecimal digits.
    pub fn to_text(&self) -> (text: String)
        ensures
            text@ == ascii_chars(hex_of(self@)),
    {
        ascii_string(to_hex(self.bytes.as_slice()))
    }

    /// Derives the address that this key certifies, whether or not it may be used.
    pub fn address(&self) -> (address: Address)
        ensures
            address@ == address_of(self@),
    {
        let first = sha512(self.bytes.as_slice());
        let second = sha512(first.as_slice());
        let mut bytes: [u8; 16] = [0u8; 16];
        let mut i: usize = 0;
        while i < ADDRESS_LEN
            invariant
                i <= ADDRESS_LEN,
                forall|k: int| 0 <= k < i ==> bytes@[k] == second@[k],
            decreases ADDRESS_LEN - i,
        {
            bytes[i] = second[i];
            i += 1;
        }
        assert(bytes@ =~= second@.take(ADDRESS_LEN as int));
        Address { bytes }
    }
}

impl Address {
    /// The address as text: eight groups of four hexadecimal digits.
    pub fn to_text(&self) -> (text: String)
        ensures
            text@ == ascii_chars(address_text(self@)),
    {
        let digits = to_hex(self.bytes.as_slice());
        let mut out: Vec<u8> = Vec::new();
        let mut i: usize = 0;
        while i < 39
            invariant
                i <= 39,
                digits@ == hex_of(self@),
                forall|k: int| 0 <= k < digits@.len() ==> digits@[k] < 128,
                out@.len() == i,
                forall|k: int| 0 <= k < i ==> out@[k] == address_text(self@)[k] && out@[k] < 128,
            decreases 39 - i,
        {
            if i % 5 == 4 {
                out.push(0x3au8);
            } else {
                out.push(digits[(i / 5) * 4 + i % 5]);
            }
            i += 1;
        }
        assert(out@ =~= address_text(self@));
        ascii_string(out)
    }

    /// The address read as one unsigned number, first byte most significant.
    pub open spec fn value(&self) -> nat {
        be_value(self@)
    }

    /// Whether the address begins as every usable address must.
    pub fn is_valid(&self) -> (valid: bool)
        ensures
            valid == is_valid_address(self@),
    {
        self.bytes[0] == ADDRESS_PREFIX
    }

    /// The address as one unsigned number.
    pub fn to_u128(&self) -> (v: u128)
        ensures
            v as nat == self.value(),
    {
        be_decode(self.bytes.as_slice())
    }
}

/// The key pair and the address of the local node.
#[derive(Clone, Copy)]
pub struct PrivateIdentity {
    private_key: PrivateKey,
    public_key: PublicKey,
    address: Address,
}

/// Why no identity could be generated.
#[derive(Clone, Copy, Debug, PartialEq, Eq, Structural)]
pub enum GenerateError {
    /// The system's secure random source failed.
    NoRandomness,
    /// None of `GENERATE_ATTEMPTS` random keys certified a usable address.
    NoSuitableKey,
}

impl PrivateIdentity {
    /// The public key and the address are the ones derived from the private
    /// key, and the address may be used.
    pub closed spec fn wf(&self) -> bool {
        &&& self.public_key@ == public_key_of(self.private_key@)
        &&& self.address@ == address_of(self.public_key@)
        &&& is_valid_address(self.address@)
    }

    pub closed spec fn spec_private_key(&self) -> PrivateKey {
        self.private_key
    }

    pub closed spec fn spec_public_key(&self) -> PublicKey {
        self.public_key
    }

    pub closed spec fn spec_address(&self) -> Address {
        self.address
    }

    /// What `wf` says, over the public accessors.
    pub proof fn lemma_wf(&self)
        requires
            self.wf(),
        ensures
            self.spec_public_key()@ == public_key_of(self.spec_private_key()@),
            self.spec_address()@ == address_of(self.spec_public_key()@),
            is_valid_address(self.spec_address()@),
    {
    }

    /// Recomputes the identity that belongs to `key`. There is none where the
    /// address that the key certifies does not begin with `ADDRESS_PREFIX`.
    pub fn from_private_key(key: &PrivateKey) -> (identity: Option<PrivateIdentity>)
        ensures
            identity is Some <==> is_valid_address(address_of(public_key_of(key@))),
            identity matches Some(id) ==> id.wf() && id.spec_private_key() == *key,
    {
        let public_key = key.public_key();
        let address = public_key.address();
        if address.is_valid() {
            Some(PrivateIdentity { private_key: *key, public_key, address })
        } else {
            None
        }
    }

    /// Draws random private keys until one certifies a usable address.
    pub fn generate() -> (identity: Result<PrivateIdentity, GenerateError>)
        ensures
            identity matches Ok(id) ==> id.wf(),
            identity matches Err(GenerateError::NoSuitableKey) ==> exists|seeds: Seq<Seq<u8>>|
                #[trigger] none_usable(seeds) && seeds.len() == GENERATE_ATTEMPTS,
    {
        let mut tried: u32 = 0;
        let ghost mut seeds: Seq<Seq<u8>> = Seq::empty();
        while tried < GENERATE_ATTEMPTS
            invariant
                tried <= GENERATE_ATTEMPTS,
                seeds.len() == tried,
                none_usable(seeds),
            decreases GENERATE_ATTEMPTS - tried,
        {
            match random_seed() {
                None => {
                    return Err(GenerateError::NoRandomness);
                },
                Some(bytes) => {
                    let key = PrivateKey { bytes };
                    if let Some(id) = PrivateIdentity::from_private_key(&key) {
                        return Ok(id);
                    }
                    proof {
                        let drawn = seeds;
                        seeds = drawn.push(key@);
                        assert forall|i: int| 0 <= i < seeds.len() implies !is_valid_address(
                            address_of(public_key_of(#[trigger] seeds[i])),
                        ) by {
                            if i < drawn.len() {
                                assert(seeds[i] == drawn[i]);
                            }
                        }
                    }
                },
            }
            tried += 1;
        }
        Err(GenerateError::NoSuitableKey)
    }

    pub fn private_key(&self) -> (key: PrivateKey)
        ensures
            key == self.spec_private_key(),
    {
        self.private_key
    }

    pub fn public_key(&self) -> (key: PublicKey)
        ensures
            key == self.spec_public_key(),
    {
        self.public_key
    }

    pub fn address(&self) -> (address: Address)
        ensures
            address == self.spec_address(),
    {
        self.address
    }
}

/// The address of an identity is a function of its public key, and the public
/// key of its private key: equal keys never give different addresses.
pub proof fn lemma_address_determined_by_key(a: PrivateIdentity, b: PrivateIdentity)
    requires
        a.wf(),
        b.wf(),
    ensures
        a.spec_public_key() == b.spec_public_key() ==> a.spec_address() == b.spec_address(),
        a.spec_private_key() == b.spec_private_key() ==> a.spec_public_key()
            == b.spec_public_key() && a.spec_address() == b.spec_address(),
{
    if a.spec_public_key() == b.spec_public_key() {
        assert(a.address.bytes =~= b.address.bytes);
    }
    if a.spec_private_key() == b.spec_private_key() {
        assert(a.public_key.bytes =~= b.public_key.bytes);
        assert(a.address.bytes =~= b.address.bytes);
    }
}

/// Whether none of `seeds`, taken as private keys, certifies a usable address.
/// `generate` gives up only after `GENERATE_ATTEMPTS` such draws in a row.
pub open spec fn none_usable(seeds: Seq<Seq<u8>>) -> bool {
    forall|i: int|
        0 <= i < seeds.len() ==> !is_valid_address(
            address_of(public_key_of(#[trigger] seeds[i])),
        )
}

} // verus!
