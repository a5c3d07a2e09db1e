use chacha20poly1305::aead::{Aead, KeyInit, Payload};
use chacha20poly1305::{ChaCha20Poly1305, Key, Nonce};
use cjdrs::identity::{PrivateIdentity, PrivateKey, PublicKey};
use cjdrs::packet::{decode_packet, encode_packet, Handshake, Packet};
use cjdrs::replay::ReplayWindow;
use cjdrs::session::{key_agreement_holds, Session, SessionState};
use sha2::{Digest, Sha512};
use x25519_dalek::{x25519, X25519_BASEPOINT_BYTES};

fn identity(seed: u8) -> PrivateIdentity {
    let mut bytes = [seed; 32];
    let mut n: u32 = 0;
    loop {
        bytes[..4].copy_from_slice(&n.to_le_bytes());
        if let Some(id) = PrivateIdentity::from_private_key(&PrivateKey { bytes }) {
            return id;
        }
        n += 1;
    }
}

fn established_pair(a: &PrivateIdentity, b: &PrivateIdentity) -> (Session, Session) {
    let mut at_a = Session::new(b.public_key(), 0);
    let mut at_b = Session::new(a.public_key(), 0);
    let from_a = at_a.start_handshake(a, [11; 32], 1).unwrap();
    assert!(at_b.receive_handshake(b, &from_a, 2));
    let from_b = at_b.start_handshake(b, [22; 32], 2).unwrap();
    assert!(at_a.receive_handshake(a, &from_b, 3));
    (at_a, at_b)
}

fn accept(window: &mut ReplayWindow, nonce: u64) -> bool {
    if window.accepts(nonce) {
        window.record(nonce);
        true
    } else {
        false
    }
}

#[test]
fn replay_window_refuses_what_it_has_seen() {
    let mut window = ReplayWindow::new();
    assert!(window.accepts(0));
    assert!(window.accepts(u64::MAX));
    assert!(accept(&mut window, 5));
    assert!(!accept(&mut window, 5));
    assert!(accept(&mut window, 4));
    assert!(!accept(&mut window, 4));
    assert!(accept(&mut window, 0));
    assert!(accept(&mut window, 7));
    assert!(!accept(&mut window, 5));
    assert!(accept(&mut window, 6));
    assert!(!accept(&mut window, 6));
}

#[test]
fn replay_window_refuses_what_lags_a_window_or_more() {
    let mut window = ReplayWindow::new();
    assert!(accept(&mut window, 10));
    assert!(accept(&mut window, 100));
    assert!(!window.accepts(36));
    assert!(!window.accepts(10));
    assert!(!window.accepts(0));
    assert!(window.accepts(37));
    assert!(window.accepts(99));
    assert!(accept(&mut window, 37));
    assert!(!accept(&mut window, 37));
    assert!(accept(&mut window, 101));
    assert!(!window.accepts(37));
    assert!(window.accepts(38));
    assert!(accept(&mut window, 1000));
    assert!(!window.accepts(101));
    assert!(!window.accepts(936));
    assert!(window.accepts(937));
    assert!(accept(&mut window, u64::MAX));
    assert!(!window.accepts(u64::MAX));
    assert!(!window.accepts(u64::MAX - 64));
    assert!(window.accepts(u64::MAX - 63));
}

#[test]
fn replay_window_takes_every_nonce_of_a_run_once() {
    let mut window = ReplayWindow::new();
    for n in 0..500u64 {
        assert!(accept(&mut window, n));
    }
    for n in 0..500u64 {
        assert!(!window.accepts(n));
    }
    let mut other = ReplayWindow::new();
    for n in (0..64u64).rev() {
        assert!(accept(&mut other, n));
    }
    for n in 0..64u64 {
        assert!(!other.accepts(n));
    }
}

#[test]
fn handshake_answered_establishes_both_sides_with_matching_keys() {
    let a = identity(1);
    let b = identity(2);
    let mut at_a = Session::new(b.public_key(), 0);
    let mut at_b = Session::new(a.public_key(), 0);
    assert_eq!(at_a.state(), SessionState::Uninitiated);
    let from_a = at_a.start_handshake(&a, [11; 32], 1).unwrap();
    assert_eq!(at_a.state(), SessionState::HandshakeSent);
    assert_eq!(from_a.sender, a.public_key());
    assert_eq!(from_a.ephemeral, PrivateKey { bytes: [11; 32] }.public_key().bytes);
    assert!(at_b.receive_handshake(&b, &from_a, 2));
    assert_eq!(at_b.state(), SessionState::HandshakeReceived);
    let from_b = at_b.start_handshake(&b, [22; 32], 2).unwrap();
    assert_eq!(at_b.state(), SessionState::Established);
    assert!(at_a.receive_handshake(&a, &from_b, 3));
    assert_eq!(at_a.state(), SessionState::Established);
    assert_eq!(at_a.send_key(), at_b.recv_key());
    assert_eq!(at_a.recv_key(), at_b.send_key());
    assert_ne!(at_a.send_key(), [0u8; 32]);
    assert_ne!(at_a.send_key(), at_a.recv_key());
    assert_eq!(at_a.last_activity(), 3);
    assert_eq!(at_b.last_activity(), 2);
}

#[test]
fn handshakes_that_cross_establish_both_sides_with_matching_keys() {
    let a = identity(1);
    let b = identity(2);
    let mut at_a = Session::new(b.public_key(), 0);
    let mut at_b = Session::new(a.public_key(), 0);
    let from_a = at_a.start_handshake(&a, [11; 32], 1).unwrap();
    let from_b = at_b.start_handshake(&b, [22; 32], 1).unwrap();
    assert!(at_b.receive_handshake(&b, &from_a, 2));
    assert!(at_a.receive_handshake(&a, &from_b, 2));
    assert_eq!(at_a.state(), SessionState::Established);
    assert_eq!(at_b.state(), SessionState::Established);
    assert_eq!(at_a.send_key(), at_b.recv_key());
    assert_eq!(at_a.recv_key(), at_b.send_key());
}

#[test]
fn new_session_keys_give_new_traffic_keys() {
    let a = identity(1);
    let b = identity(2);
    let (first, _) = established_pair(&a, &b);
    let mut at_a = Session::new(b.public_key(), 0);
    let mut at_b = Session::new(a.public_key(), 0);
    let from_a = at_a.start_handshake(&a, [33; 32], 1).unwrap();
    assert!(at_b.receive_handshake(&b, &from_a, 2));
    let from_b = at_b.start_handshake(&b, [44; 32], 2).unwrap();
    assert!(at_a.receive_handshake(&a, &from_b, 3));
    assert_ne!(first.send_key(), at_a.send_key());
    assert_eq!(at_a.send_key(), at_b.recv_key());
}

#[test]
fn tampering_with_any_byte_of_a_handshake_makes_the_receiver_drop_it() {
    let a = identity(1);
    let b = identity(2);
    let mut at_a = Session::new(b.public_key(), 0);
    let from_a = at_a.start_handshake(&a, [11; 32], 1).unwrap();
    let bytes = encode_packet(&Packet::Handshake(from_a));
    assert_eq!(bytes.len(), 97);
    for at in 0..bytes.len() {
        for flip in [0x01u8, 0x80] {
            let mut bad = bytes.clone();
            bad[at] ^= flip;
            let mut at_b = Session::new(a.public_key(), 0);
            match decode_packet(&bad) {
                Some(Packet::Handshake(forged)) => {
                    assert!(!at_b.receive_handshake(&b, &forged, 2));
                }
                _ => {}
            }
            assert_eq!(at_b.state(), SessionState::Uninitiated);
            assert_eq!(at_b.last_activity(), 0);
            assert_eq!(at_b.recv_key(), [0u8; 32]);
        }
    }
    let mut at_b = Session::new(a.public_key(), 0);
    assert!(at_b.receive_handshake(&b, &from_a, 2));
}

#[test]
fn tampered_answer_leaves_the_initiator_waiting() {
    let a = identity(1);
    let b = identity(2);
    let mut at_a = Session::new(b.public_key(), 0);
    let mut at_b = Session::new(a.public_key(), 0);
    let from_a = at_a.start_handshake(&a, [11; 32], 1).unwrap();
    assert!(at_b.receive_handshake(&b, &from_a, 2));
    let from_b = at_b.start_handshake(&b, [22; 32], 2).unwrap();
    let mut forged = from_b;
    forged.tag[31] ^= 1;
    assert!(!at_a.receive_handshake(&a, &forged, 3));
    assert_eq!(at_a.state(), SessionState::HandshakeSent);
    assert_eq!(at_a.last_activity(), 1);
    let mut forged = from_b;
    forged.ephemeral[0] ^= 1;
    assert!(!at_a.receive_handshake(&a, &forged, 3));
    assert_eq!(at_a.state(), SessionState::HandshakeSent);
    assert!(at_a.receive_handshake(&a, &from_b, 3));
    assert_eq!(at_a.state(), SessionState::Established);
}

#[test]
fn handshake_from_another_key_is_dropped() {
    let a = identity(1);
    let b = identity(2);
    let c = identity(3);
    let mut c_to_b = Session::new(b.public_key(), 0);
    let from_c = c_to_b.start_handshake(&c, [11; 32], 1).unwrap();
    let mut at_b = Session::new(a.public_key(), 0);
    assert!(!at_b.receive_handshake(&b, &from_c, 2));
    let claimed = Handshake { sender: a.public_key(), ephemeral: from_c.ephemeral, tag: from_c.tag };
    assert!(!at_b.receive_handshake(&b, &claimed, 2));
    assert_eq!(at_b.state(), SessionState::Uninitiated);
    let mut a_to_c = Session::new(c.public_key(), 0);
    let for_c = a_to_c.start_handshake(&a, [11; 32], 1).unwrap();
    assert!(!at_b.receive_handshake(&b, &for_c, 2));
    assert_eq!(at_b.peer_key(), a.public_key());
}

#[test]
fn handshake_is_taken_only_while_the_session_waits_for_one() {
    let a = identity(1);
    let b = identity(2);
    let (mut at_a, mut at_b) = established_pair(&a, &b);
    let mut again = Session::new(b.public_key(), 0);
    let from_a = again.start_handshake(&a, [55; 32], 5).unwrap();
    assert!(!at_b.receive_handshake(&b, &from_a, 6));
    assert_eq!(at_b.state(), SessionState::Established);
    assert!(at_a.start_handshake(&a, [66; 32], 7).is_none());
    assert_eq!(at_a.state(), SessionState::Established);
    let mut waiting = Session::new(b.public_key(), 0);
    assert!(waiting.start_handshake(&a, [1; 32], 1).is_some());
    assert!(waiting.start_handshake(&a, [2; 32], 2).is_none());
    assert_eq!(waiting.state(), SessionState::HandshakeSent);
    assert_eq!(waiting.last_activity(), 1);
}

#[test]
fn sealed_traffic_opens_on_the_other_side_only() {
    let a = identity(1);
    let b = identity(2);
    let (mut at_a, mut at_b) = established_pair(&a, &b);
    let aad = [1u8, 2, 0, 0, 0, 0, 0, 0];
    let (nonce, sealed) = at_a.seal(&aad, b"hello mesh", 10).unwrap();
    assert_eq!(nonce, 0);
    assert_eq!(sealed.len(), 10 + 16);
    assert_ne!(&sealed[..10], b"hello mesh");
    assert_eq!(at_a.last_activity(), 10);
    let opened = at_b.open(&aad, nonce, &sealed, 11).unwrap();
    assert_eq!(opened, b"hello mesh".to_vec());
    assert_eq!(at_b.last_activity(), 11);
    let (second, _) = at_a.seal(&aad, b"again", 12).unwrap();
    assert_eq!(second, 1);
    let (back, reply) = at_b.seal(&aad, b"answer", 13).unwrap();
    assert_eq!(back, 0);
    assert_eq!(at_a.open(&aad, back, &reply, 14).unwrap(), b"answer".to_vec());
    assert!(at_b.open(&aad, back, &reply, 14).is_none());
}

#[test]
fn sealing_is_chacha20_poly1305_under_the_send_key() {
    let a = identity(1);
    let b = identity(2);
    let (mut at_a, _) = established_pair(&a, &b);
    let aad = [9u8, 0, 0, 0, 0, 0, 0, 0];
    let _ = at_a.seal(&aad, b"first", 10).unwrap();
    let (nonce, sealed) = at_a.seal(&aad, b"second", 10).unwrap();
    assert_eq!(nonce, 1);
    let key = at_a.send_key();
    let cipher = ChaCha20Poly1305::new(Key::from_slice(&key));
    let nonce12 = [0u8, 0, 0, 0, 0, 0, 0, 0, 0, 0, 0, 1];
    let expected = cipher
        .encrypt(Nonce::from_slice(&nonce12), Payload { msg: b"second", aad: &aad })
        .unwrap();
    assert_eq!(sealed, expected);
}

#[test]
fn replayed_packet_is_dropped_and_changes_nothing() {
    let a = identity(1);
    let b = identity(2);
    let (mut at_a, mut at_b) = established_pair(&a, &b);
    let aad = [0u8; 8];
    let (n0, first) = at_a.seal(&aad, b"one", 10).unwrap();
    let (n1, second) = at_a.seal(&aad, b"two", 10).unwrap();
    assert!(at_b.open(&aad, n0, &first, 20).is_some());
    assert!(at_b.open(&aad, n0, &first, 30).is_none());
    assert_eq!(at_b.last_activity(), 20);
    assert_eq!(at_b.state(), SessionState::Established);
    assert!(at_b.open(&aad, n1, &second, 40).is_some());
    assert!(at_b.open(&aad, n0, &first, 50).is_none());
    assert!(at_b.open(&aad, n1, &second, 50).is_none());
    assert_eq!(at_b.last_activity(), 40);
}

#[test]
fn packets_out_of_order_are_taken_once_each() {
    let a = identity(1);
    let b = identity(2);
    let (mut at_a, mut at_b) = established_pair(&a, &b);
    let aad = [0u8; 8];
    let mut sent = Vec::new();
    for i in 0..70u8 {
        sent.push(at_a.seal(&aad, &[i], 10).unwrap());
    }
    let (n69, p69) = &sent[69];
    assert_eq!(at_b.open(&aad, *n69, p69, 20), Some(vec![69]));
    let (n6, p6) = &sent[6];
    assert_eq!(at_b.open(&aad, *n6, p6, 20), Some(vec![6]));
    assert_eq!(at_b.open(&aad, *n6, p6, 20), None);
    let (n5, p5) = &sent[5];
    assert_eq!(at_b.open(&aad, *n5, p5, 20), None);
    let (n68, p68) = &sent[68];
    assert_eq!(at_b.open(&aad, *n68, p68, 20), Some(vec![68]));
}

#[test]
fn broken_seal_wrong_label_or_wrong_nonce_is_dropped() {
    let a = identity(1);
    let b = identity(2);
    let (mut at_a, mut at_b) = established_pair(&a, &b);
    let aad = [3u8, 0, 0, 0, 0, 0, 0, 0];
    let (nonce, sealed) = at_a.seal(&aad, b"payload", 10).unwrap();
    let mut bad = sealed.clone();
    bad[0] ^= 1;
    assert!(at_b.open(&aad, nonce, &bad, 20).is_none());
    assert!(at_b.open(&[4u8, 0, 0, 0, 0, 0, 0, 0], nonce, &sealed, 20).is_none());
    assert!(at_b.open(&aad, nonce + 1, &sealed, 20).is_none());
    assert!(at_b.open(&aad, nonce, &sealed[..5], 20).is_none());
    assert!(at_b.open(&aad, nonce, &[], 20).is_none());
    assert_eq!(at_b.last_activity(), 2);
    assert_eq!(at_b.open(&aad, nonce, &sealed, 20), Some(b"payload".to_vec()));
}

#[test]
fn nothing_is_sealed_or_opened_before_the_session_is_established() {
    let a = identity(1);
    let b = identity(2);
    let mut at_a = Session::new(b.public_key(), 0);
    assert!(at_a.seal(&[0; 8], b"x", 1).is_none());
    assert!(at_a.open(&[0; 8], 0, &[0; 17], 1).is_none());
    assert!(!at_a.is_established());
    let _ = at_a.start_handshake(&a, [11; 32], 1).unwrap();
    assert!(at_a.seal(&[0; 8], b"x", 2).is_none());
    assert_eq!(at_a.last_activity(), 1);
    assert_eq!(at_a.send_key(), [0u8; 32]);
}

#[test]
fn idle_session_expires_and_starts_over() {
    let a = identity(1);
    let b = identity(2);
    let (mut at_a, mut at_b) = established_pair(&a, &b);
    assert!(!at_a.expire_if_idle(3 + 999, 1000));
    assert_eq!(at_a.state(), SessionState::Established);
    assert!(!at_a.expire_if_idle(1, 1000));
    assert!(at_a.expire_if_idle(3 + 1000, 1000));
    assert_eq!(at_a.state(), SessionState::Expired);
    assert_eq!(at_a.send_key(), [0u8; 32]);
    assert_eq!(at_a.recv_key(), [0u8; 32]);
    assert!(at_a.seal(&[0; 8], b"x", 2000).is_none());
    assert!(!at_a.expire_if_idle(5000, 1000));
    assert!(at_b.expire_if_idle(5000, 1000));
    let from_a = at_a.start_handshake(&a, [77; 32], 6000).unwrap();
    assert_eq!(at_a.state(), SessionState::HandshakeSent);
    assert!(at_b.receive_handshake(&b, &from_a, 6001));
    assert_eq!(at_b.state(), SessionState::HandshakeReceived);
    let from_b = at_b.start_handshake(&b, [88; 32], 6001).unwrap();
    assert!(at_a.receive_handshake(&a, &from_b, 6002));
    assert_eq!(at_a.send_key(), at_b.recv_key());
    let mut fresh = Session::new(b.public_key(), 0);
    assert!(!fresh.expire_if_idle(u64::MAX, 0));
    assert_eq!(fresh.state(), SessionState::Uninitiated);
}

#[test]
fn unanswered_handshake_is_given_up() {
    let a = identity(1);
    let b = identity(2);
    let mut at_a = Session::new(b.public_key(), 0);
    let _ = at_a.start_handshake(&a, [11; 32], 100).unwrap();
    assert!(!at_a.expire_if_idle(1099, 1000));
    assert!(at_a.expire_if_idle(1100, 1000));
    assert_eq!(at_a.state(), SessionState::Expired);
}

#[test]
fn initiate_draws_a_fresh_secret_each_time() {
    let a = identity(1);
    let b = identity(2);
    let mut first = Session::new(b.public_key(), 0);
    let mut second = Session::new(b.public_key(), 0);
    let h1 = first.initiate(&a, 1).ok().unwrap().unwrap();
    let h2 = second.initiate(&a, 1).ok().unwrap().unwrap();
    assert_ne!(h1.ephemeral, h2.ephemeral);
    assert_eq!(h1.sender, a.public_key());
    assert_eq!(first.state(), SessionState::HandshakeSent);
    let mut at_b = Session::new(a.public_key(), 0);
    assert!(at_b.receive_handshake(&b, &h1, 2));
    assert!(first.initiate(&a, 3).ok().unwrap().is_none());
    let _ = PublicKey { bytes: h1.ephemeral };
}

#[test]
fn handshake_tag_is_the_digest_of_the_long_term_secret_and_the_keys() {
    let a = identity(1);
    let b = identity(2);
    let mut at_a = Session::new(b.public_key(), 0);
    let h = at_a.start_handshake(&a, [11; 32], 1).unwrap();
    let ephemeral = x25519([11; 32], X25519_BASEPOINT_BYTES);
    assert_eq!(h.ephemeral, ephemeral);
    let secret = x25519(a.private_key().bytes, b.public_key().bytes);
    let mut input = vec![1u8];
    input.extend_from_slice(&secret);
    input.extend_from_slice(&a.public_key().bytes);
    input.extend_from_slice(&b.public_key().bytes);
    input.extend_from_slice(&ephemeral);
    assert_eq!(&h.tag[..], &Sha512::digest(&input)[..32]);
}

#[test]
fn traffic_keys_are_the_digest_of_both_secrets_and_the_keys() {
    let a = identity(1);
    let b = identity(2);
    let (at_a, at_b) = established_pair(&a, &b);
    let session_secret = x25519([11; 32], x25519([22; 32], X25519_BASEPOINT_BYTES));
    let long_term_secret = x25519(a.private_key().bytes, b.public_key().bytes);
    let mut input = vec![2u8];
    input.extend_from_slice(&session_secret);
    input.extend_from_slice(&long_term_secret);
    input.extend_from_slice(&a.public_key().bytes);
    input.extend_from_slice(&b.public_key().bytes);
    assert_eq!(&at_a.send_key()[..], &Sha512::digest(&input)[..32]);
    assert_eq!(&at_b.recv_key()[..], &Sha512::digest(&input)[..32]);
    let mut back = vec![2u8];
    back.extend_from_slice(&session_secret);
    back.extend_from_slice(&long_term_secret);
    back.extend_from_slice(&b.public_key().bytes);
    back.extend_from_slice(&a.public_key().bytes);
    assert_eq!(&at_a.recv_key()[..], &Sha512::digest(&back)[..32]);
}

#[test]
fn recording_a_refused_nonce_changes_nothing() {
    let mut window = ReplayWindow::new();
    window.record(100);
    window.record(10);
    assert!(window.accepts(99));
    assert!(window.accepts(37));
    assert!(!window.accepts(36));
    window.record(100);
    assert!(window.accepts(99));
    assert!(!window.accepts(100));
}

#[test]
fn key_agreement_comes_to_the_same_on_both_sides() {
    let a = identity(1);
    let b = identity(2);
    assert!(key_agreement_holds(&a.private_key().bytes, &b.private_key().bytes));
    assert!(key_agreement_holds(&[11; 32], &[22; 32]));
    assert!(key_agreement_holds(&[0; 32], &[0xff; 32]));
    let mut waiting = Session::new(b.public_key(), 0);
    assert!(waiting.can_start());
    let _ = waiting.start_handshake(&a, [1; 32], 1);
    assert!(!waiting.can_start());
}
