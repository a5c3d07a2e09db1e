use cjdrs::command::{select_command, Command};
use cjdrs::config::{CjdrsError, Config};
use cjdrs::identity::{Address, GenerateError, PrivateIdentity, PrivateKey, PublicKey};
use cjdrs::text::{from_hex, to_hex, KeyError};
use sha2::{Digest, Sha512};

fn key_with_address(seed: u8, usable: bool) -> PrivateKey {
    let mut bytes = [seed; 32];
    let mut n: u32 = 0;
    loop {
        bytes[..4].copy_from_slice(&n.to_le_bytes());
        let key = PrivateKey { bytes };
        if PrivateIdentity::from_private_key(&key).is_some() == usable {
            return key;
        }
        n += 1;
    }
}

#[test]
fn public_key_matches_the_rfc_7748_vector() {
    let alice = PrivateKey::from_string(
        "77076d0a7318a57d3c16c17251b26645df4c2f87ebc0992ab177fba51db92c2a",
    )
    .unwrap();
    assert_eq!(
        alice.public_key().to_text(),
        "8520f0098930a754748b7ddcb43ef75a0dbf3a0d26381af4eba4a98eaa9b4e6a"
    );
    let bob = PrivateKey::from_string(
        "5DAB087E624A8A4B79E17F8B83800EE66F3BB1292618B6FD1C2F8B27FF88E0EB",
    )
    .unwrap();
    assert_eq!(
        bob.public_key().to_text(),
        "de9edb7d7b7dc1b4d35b61c2ece435373f8343c85b78674dadfc7e146f882b4f"
    );
}

#[test]
fn address_is_the_start_of_the_digest_of_the_digest() {
    let key = PublicKey { bytes: [0x42; 32] };
    let once = Sha512::digest(key.bytes);
    let twice = Sha512::digest(once);
    assert_eq!(&key.address().bytes[..], &twice[..16]);
    assert_ne!(&key.address().bytes[..], &key.bytes[..16]);
}

#[test]
fn same_key_gives_the_same_identity_every_time() {
    let key = key_with_address(1, true);
    let first = PrivateIdentity::from_private_key(&key).unwrap();
    let second = PrivateIdentity::from_private_key(&key).unwrap();
    assert_eq!(first.public_key(), second.public_key());
    assert_eq!(first.address(), second.address());
    assert_eq!(first.private_key().bytes, key.bytes);
    assert_eq!(first.public_key(), key.public_key());
    assert_eq!(first.address(), first.public_key().address());
    assert_eq!(first.address().bytes[0], 0xfc);
    assert!(first.address().is_valid());
}

#[test]
fn key_without_usable_address_gives_no_identity() {
    let key = key_with_address(2, false);
    assert!(PrivateIdentity::from_private_key(&key).is_none());
    assert_ne!(key.public_key().address().bytes[0], 0xfc);
    assert!(!key.public_key().address().is_valid());
}

#[test]
fn generated_identity_is_usable_and_fresh() {
    let first = match PrivateIdentity::generate() {
        Ok(id) => id,
        Err(GenerateError::NoRandomness) => panic!("no randomness"),
        Err(GenerateError::NoSuitableKey) => panic!("no suitable key"),
    };
    assert!(first.address().is_valid());
    let again = PrivateIdentity::from_private_key(&first.private_key()).unwrap();
    assert_eq!(again.public_key(), first.public_key());
    assert_eq!(again.address(), first.address());
    let second = PrivateIdentity::generate().ok().unwrap();
    assert_ne!(first.private_key().bytes, second.private_key().bytes);
    assert_ne!(first.private_key().bytes, [0u8; 32]);
}

#[test]
fn private_key_text_round_trips() {
    let key = PrivateKey { bytes: [0xab; 32] };
    let text = key.to_text();
    assert_eq!(text, "ab".repeat(32));
    assert_eq!(PrivateKey::from_string(&text).unwrap().bytes, key.bytes);
}

#[test]
fn key_text_of_wrong_length_or_digits_is_refused() {
    assert_eq!(PrivateKey::from_string("").err(), Some(KeyError::WrongLength));
    assert_eq!(PrivateKey::from_string(&"0".repeat(63)).err(), Some(KeyError::WrongLength));
    assert_eq!(PrivateKey::from_string(&"0".repeat(65)).err(), Some(KeyError::WrongLength));
    let mut bad = "0".repeat(63);
    bad.push('g');
    assert_eq!(PrivateKey::from_string(&bad).err(), Some(KeyError::NotHex));
    assert_eq!(PublicKey::from_string(&bad).err(), Some(KeyError::NotHex));
    assert_eq!(PublicKey::from_string("zz").err(), Some(KeyError::WrongLength));
    assert!(PublicKey::from_string(&"0".repeat(64)).is_ok());
}

#[test]
fn hex_digits_are_exact() {
    assert_eq!(to_hex(&[0x00, 0x1f, 0xa0, 0xff]), b"001fa0ff".to_vec());
    assert_eq!(to_hex(&[]), Vec::<u8>::new());
    assert_eq!(from_hex::<4>(b"001FA0ff"), Ok([0x00, 0x1f, 0xa0, 0xff]));
    assert_eq!(from_hex::<4>(b"001FA0f"), Err(KeyError::WrongLength));
    assert_eq!(from_hex::<4>(b"001FA0f "), Err(KeyError::NotHex));
    assert_eq!(from_hex::<0>(b""), Ok([]));
}

#[test]
fn address_text_has_eight_groups() {
    let address = Address {
        bytes: [
            0xfc, 0x00, 0x01, 0x23, 0x45, 0x67, 0x89, 0xab, 0xcd, 0xef, 0x10, 0x32, 0x54, 0x76,
            0x98, 0xba,
        ],
    };
    assert_eq!(address.to_text(), "fc00:0123:4567:89ab:cdef:1032:5476:98ba");
}

#[test]
fn address_value_is_big_endian() {
    let mut bytes = [0u8; 16];
    bytes[0] = 0xfc;
    bytes[15] = 0x02;
    assert_eq!(Address { bytes }.to_u128(), (0xfcu128 << 120) | 2);
    assert_eq!(Address { bytes: [0xff; 16] }.to_u128(), u128::MAX);
}

#[test]
fn default_config_holds_the_key_and_the_defaults() {
    let identity = PrivateIdentity::from_private_key(&key_with_address(3, true)).unwrap();
    let config = Config::get_default(&identity);
    assert_eq!(config.private_key, identity.private_key().to_text());
    assert_eq!(config.tun_device, "tun0");
    assert_eq!(config.udp_bind, "0.0.0.0:3300");
    assert_eq!(config.session_timeout, 60000);
    assert_eq!(config.route_max_age, 300000);
    assert_eq!(config.tick_interval, 1000);
    assert_eq!(config.advertise_interval, 10000);
    assert!(config.peers.is_empty());
    let loaded = config.identity().ok().unwrap();
    assert_eq!(loaded.address(), identity.address());
    assert_eq!(loaded.public_key(), identity.public_key());
}

#[test]
fn config_with_bad_key_gives_each_error() {
    let identity = PrivateIdentity::from_private_key(&key_with_address(4, true)).unwrap();
    let mut config = Config::get_default(&identity);
    config.private_key = "abc".to_string();
    assert_eq!(
        config.identity().err(),
        Some(CjdrsError::InvalidPrivateKey(KeyError::WrongLength))
    );
    config.private_key = "x".repeat(64);
    assert_eq!(
        config.identity().err(),
        Some(CjdrsError::InvalidPrivateKey(KeyError::NotHex))
    );
    config.private_key = String::new();
    assert_eq!(
        config.identity().err(),
        Some(CjdrsError::InvalidPrivateKey(KeyError::WrongLength))
    );
    let unusable = key_with_address(5, false);
    config.private_key = unusable.to_text();
    assert_eq!(config.identity().err(), Some(CjdrsError::NoAddressForPrivateKey(unusable)));
}

#[test]
fn command_follows_the_flags() {
    assert_eq!(select_command(true, false), Command::Init);
    assert_eq!(select_command(false, true), Command::Run);
    assert_eq!(select_command(true, true), Command::Init);
}
