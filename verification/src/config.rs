//! The configuration of a node, as the outside stores it.

use vstd::prelude::*;
use crate::identity::{address_of, is_valid_address, public_key_of, text_bytes};
use crate::identity::{PrivateIdentity, PrivateKey, KEY_LEN};
use crate::schedule::{DEFAULT_ADVERTISE_INTERVAL, DEFAULT_TICK_INTERVAL};
use crate::text::{all_hex, ascii_chars, hex_of, is_hex_of, KeyError};

verus! {

/// Milliseconds without traffic after which a session expires, unless the
/// configuration says otherwise.
pub const DEFAULT_SESSION_TIMEOUT: u64 = 60000;

/// Milliseconds without confirmation after which a route is evicted, unless
/// the configuration says otherwise.
pub const DEFAULT_ROUTE_MAX_AGE: u64 = 300000;

/// A direct peer as configured: where it is reached, and its public key.
#[derive(Clone, Debug)]
pub struct PeerConfig {
    pub endpoint: String,
    pub public_key: String,
}

/// What a node is configured with.
#[derive(Clone, Debug)]
pub struct Config {
    /// The private key, as sixty-four hexadecimal digits.
    pub private_key: String,
    /// The name of the tunnel device.
    pub tun_device: String,
    /// The address and port to bind the UDP socket to.
    pub udp_bind: String,
    /// Milliseconds without traffic after which a session expires.
    pub session_timeout: u64,
    /// Milliseconds without confirmation after which a route is evicted.
    pub route_max_age: u64,
    /// Milliseconds between two looks at the clock.
    pub tick_interval: u64,
    /// Milliseconds between two rounds of route advertisements.
    pub advertise_interval: u64,
    /// The direct peers.
    pub peers: Vec<PeerConfig>,
}

/// Why a configuration gives no identity.
#[derive(Clone, Copy, Debug, PartialEq, Eq)]
pub enum CjdrsError {
    /// The private key is not sixty-four hexadecimal digits.
    InvalidPrivateKey(KeyError),
    /// This private key certifies no usable address.
    NoAddressForPrivateKey(PrivateKey),
}

impl Config {
    /// The configuration for a new node with `identity`: its private key, the
    /// default device, the default port on every interface, the default
    /// timeouts and intervals, and no peers.
    pub fn get_default(identity: &PrivateIdentity) -> (config: Config)
        ensures
            config.private_key@ == ascii_chars(hex_of(identity.spec_private_key()@)),
            config.tun_device@ == "tun0"@,
            config.udp_bind@ == "0.0.0.0:3300"@,
            config.session_timeout == DEFAULT_SESSION_TIMEOUT,
            config.route_max_age == DEFAULT_ROUTE_MAX_AGE,
            config.tick_interval == DEFAULT_TICK_INTERVAL,
            config.advertise_interval == DEFAULT_ADVERTISE_INTERVAL,
            config.peers@.len() == 0,
    {
        Config {
            private_key: identity.private_key().to_text(),
            tun_device: "tun0".to_owned(),
            udp_bind: "0.0.0.0:3300".to_owned(),
            session_timeout: DEFAULT_SESSION_TIMEOUT,
            route_max_age: DEFAULT_ROUTE_MAX_AGE,
            tick_interval: DEFAULT_TICK_INTERVAL,
            advertise_interval: DEFAULT_ADVERTISE_INTERVAL,
            peers: Vec::new(),
        }
    }

    /// The identity that the configured private key gives. There is none
    /// where the text is no key, or the key certifies no usable address; the
    /// error then holds the key.
    pub fn identity(&self) -> (identity: Result<PrivateIdentity, CjdrsError>)
        ensures
            match identity {
                Ok(id) => id.wf() && text_bytes(self.private_key@).len() == 2 * KEY_LEN
                    && is_hex_of(text_bytes(self.private_key@), id.spec_private_key()@),
                Err(CjdrsError::InvalidPrivateKey(KeyError::WrongLength)) => text_bytes(
                    self.private_key@,
                ).len() != 2 * KEY_LEN,
                Err(CjdrsError::InvalidPrivateKey(KeyError::NotHex)) => text_bytes(
                    self.private_key@,
                ).len() == 2 * KEY_LEN && !all_hex(text_bytes(self.private_key@)),
                Err(CjdrsError::NoAddressForPrivateKey(key)) => text_bytes(
                    self.private_key@,
                ).len() == 2 * KEY_LEN && is_hex_of(text_bytes(self.private_key@), key@)
                    && !is_valid_address(address_of(public_key_of(key@))),
            },
    {
        match PrivateKey::from_string(self.private_key.as_str()) {
            Err(e) => Err(CjdrsError::InvalidPrivateKey(e)),
            Ok(key) => {
                match PrivateIdentity::from_private_key(&key) {
                    Some(id) => Ok(id),
                    None => Err(CjdrsError::NoAddressForPrivateKey(key)),
                }
            },
        }
    }
}

} // verus!
