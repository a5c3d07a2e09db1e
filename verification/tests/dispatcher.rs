use cjdrs::codec::{decode, encode};
use cjdrs::dispatcher::{Dispatcher, Event};
use cjdrs::identity::{Address, PrivateIdentity, PrivateKey};
use cjdrs::label::SwitchLabel;
use cjdrs::peer::{Action, Endpoint};
use cjdrs::schedule::Schedule;
use cjdrs::session::SessionState;

fn identity(seed: u8) -> PrivateIdentity {
    let mut bytes = [seed; 32];
    let mut n: u32 = 0;
    loop {
        bytes[..4].copy_from_slice(&n.to_le_bytes());
        if let Some(id) = PrivateIdentity::from_private_key(&PrivateKey { bytes }) {
            return id;
        }
        n += 1;
    }
}

fn endpoint(n: u8) -> Endpoint {
    let mut address = [0u8; 16];
    address[10] = 0xff;
    address[11] = 0xff;
    address[12] = 10;
    address[15] = n;
    Endpoint { address, port: 3300 }
}

fn ip_packet(from: &Address, to: &Address, payload: &[u8]) -> Vec<u8> {
    let mut packet = vec![0x60, 0, 0, 0, 0, payload.len() as u8, 59, 64];
    packet.extend_from_slice(&from.bytes);
    packet.extend_from_slice(&to.bytes);
    packet.extend_from_slice(payload);
    packet
}

fn datagram(action: Option<Action>, to: Endpoint) -> Vec<u8> {
    match action {
        Some(Action::SendDatagram { to: target, bytes }) => {
            assert_eq!(target, to);
            bytes
        }
        Some(Action::WriteTun(_)) => panic!("written to the tunnel device"),
        None => panic!("nothing sent"),
    }
}

fn connect(a: &mut Dispatcher, at_a: Endpoint, to_b: u8, b: &mut Dispatcher, at_b: Endpoint) {
    let hello = datagram(a.connect(to_b, 1, [0x31; 32]), at_b);
    let answer =
        datagram(b.handle(Event::Datagram { from: at_a, bytes: hello }, 1, [0x32; 32]), at_a);
    assert!(a.handle(Event::Datagram { from: at_b, bytes: answer }, 1, [0x33; 32]).is_none());
}

#[test]
fn packet_between_two_direct_peers_arrives_unchanged() {
    let a_id = identity(0xaa);
    let b_id = identity(0xbb);
    let mut a = Dispatcher::new(a_id, 60000, 300000);
    let mut b = Dispatcher::new(b_id, 60000, 300000);
    let to_b = a.add_peer(endpoint(2), b_id.public_key(), 0).unwrap();
    let to_a = b.add_peer(endpoint(1), a_id.public_key(), 0).unwrap();
    assert_eq!((to_a, to_b), (1, 1));
    let packet = ip_packet(&a_id.address(), &b_id.address(), b"ping over the mesh");

    let hello = datagram(a.handle(Event::TunPacket(packet.clone()), 10, [1; 32]), endpoint(2));
    assert_eq!(a.session_state(to_b), Some(SessionState::HandshakeSent));
    let answer = datagram(
        b.handle(Event::Datagram { from: endpoint(1), bytes: hello }, 11, [2; 32]),
        endpoint(1),
    );
    assert_eq!(b.session_state(to_a), Some(SessionState::Established));
    let sealed = datagram(
        a.handle(Event::Datagram { from: endpoint(2), bytes: answer }, 12, [3; 32]),
        endpoint(2),
    );
    assert_eq!(a.session_state(to_b), Some(SessionState::Established));
    assert!(!sealed.windows(packet.len()).any(|w| w == &packet[..]));
    match b.handle(Event::Datagram { from: endpoint(1), bytes: sealed }, 13, [4; 32]) {
        Some(Action::WriteTun(got)) => assert_eq!(got, packet),
        _ => panic!("nothing written to the tunnel device"),
    }
    assert_eq!(a.session_state(to_b), Some(SessionState::Established));
    assert_eq!(b.session_state(to_a), Some(SessionState::Established));

    let next = ip_packet(&a_id.address(), &b_id.address(), b"second");
    let sealed = datagram(a.handle(Event::TunPacket(next.clone()), 14, [5; 32]), endpoint(2));
    match b.handle(Event::Datagram { from: endpoint(1), bytes: sealed }, 15, [6; 32]) {
        Some(Action::WriteTun(got)) => assert_eq!(got, next),
        _ => panic!("nothing written to the tunnel device"),
    }
    let back = ip_packet(&b_id.address(), &a_id.address(), b"pong");
    let sealed = datagram(b.handle(Event::TunPacket(back.clone()), 16, [7; 32]), endpoint(1));
    match a.handle(Event::Datagram { from: endpoint(2), bytes: sealed }, 17, [8; 32]) {
        Some(Action::WriteTun(got)) => assert_eq!(got, back),
        _ => panic!("nothing written to the tunnel device"),
    }
}

#[test]
fn packet_over_an_intermediate_node_arrives_unchanged() {
    let a_id = identity(0xaa);
    let b_id = identity(0xbb);
    let c_id = identity(0xcc);
    let mut a = Dispatcher::new(a_id, 60000, 300000);
    let mut b = Dispatcher::new(b_id, 60000, 300000);
    let mut c = Dispatcher::new(c_id, 60000, 300000);
    let a_to_b = a.add_peer(endpoint(2), b_id.public_key(), 0).unwrap();
    let b_to_a = b.add_peer(endpoint(1), a_id.public_key(), 0).unwrap();
    let b_to_c = b.add_peer(endpoint(3), c_id.public_key(), 0).unwrap();
    let c_to_b = c.add_peer(endpoint(2), b_id.public_key(), 0).unwrap();
    assert_eq!((a_to_b, b_to_a, b_to_c, c_to_b), (1, 1, 2, 1));
    connect(&mut a, endpoint(1), a_to_b, &mut b, endpoint(2));
    connect(&mut b, endpoint(2), b_to_c, &mut c, endpoint(3));
    assert_eq!(b.session_state(b_to_a), Some(SessionState::Established));
    assert_eq!(b.session_state(b_to_c), Some(SessionState::Established));

    let packet = ip_packet(&a_id.address(), &c_id.address(), b"from a to c");
    assert!(a.handle(Event::TunPacket(packet.clone()), 20, [9; 32]).is_none());
    assert!(a.router().lookup(&c_id.address()).is_none());

    let advert = datagram(b.advertise(b_to_a, &c_id.address(), 21), endpoint(1));
    assert!(a.handle(Event::Datagram { from: endpoint(2), bytes: advert }, 22, [9; 32]).is_none());
    let route = a.router().lookup(&c_id.address()).unwrap();
    assert_eq!(route.next_hop, a_to_b);
    assert_eq!(route.metric, 2);
    assert_eq!(route.label.to_bytes(), [a_to_b, b_to_c, 0, 0, 0, 0, 0, 0]);
    assert!(b.advertise(b_to_c, &c_id.address(), 21).is_none());

    let first = datagram(a.handle(Event::TunPacket(packet.clone()), 23, [9; 32]), endpoint(2));
    let (label, _) = decode(&first).ok().unwrap();
    assert_eq!(label.to_bytes(), [b_to_c, 0, 0, 0, 0, 0, 0, 0]);
    let second = datagram(
        b.handle(Event::Datagram { from: endpoint(1), bytes: first.clone() }, 24, [9; 32]),
        endpoint(3),
    );
    let (label, _) = decode(&second).ok().unwrap();
    assert_eq!(label.to_bytes(), [0; 8]);
    assert_ne!(first[10..], second[10..]);
    match c.handle(Event::Datagram { from: endpoint(2), bytes: second }, 25, [9; 32]) {
        Some(Action::WriteTun(got)) => assert_eq!(got, packet),
        _ => panic!("nothing written to the tunnel device"),
    }
}

#[test]
fn node_advertises_itself_and_only_itself_at_no_hop() {
    let a_id = identity(0xaa);
    let b_id = identity(0xbb);
    let mut a = Dispatcher::new(a_id, 60000, 300000);
    let mut b = Dispatcher::new(b_id, 60000, 300000);
    let to_b = a.add_peer(endpoint(2), b_id.public_key(), 0).unwrap();
    let to_a = b.add_peer(endpoint(1), a_id.public_key(), 0).unwrap();
    assert!(b.advertise(to_a, &b_id.address(), 0).is_none());
    connect(&mut a, endpoint(1), to_b, &mut b, endpoint(2));
    let own = datagram(b.advertise(to_a, &b_id.address(), 5), endpoint(1));
    assert!(a.handle(Event::Datagram { from: endpoint(2), bytes: own }, 6, [1; 32]).is_none());
    assert_eq!(a.router().len(), 1);
    assert_eq!(a.router().lookup(&b_id.address()).unwrap().metric, 1);
    assert!(b.advertise(to_a, &a_id.address(), 5).is_none());
    assert!(b.advertise(0, &b_id.address(), 5).is_none());
    assert!(b.advertise(9, &b_id.address(), 5).is_none());
    assert!(a.destinations_known().contains(&b_id.address()));
}

#[test]
fn what_is_malformed_unknown_or_replayed_is_dropped() {
    let a_id = identity(0xaa);
    let b_id = identity(0xbb);
    let mut a = Dispatcher::new(a_id, 60000, 300000);
    let mut b = Dispatcher::new(b_id, 60000, 300000);
    let to_b = a.add_peer(endpoint(2), b_id.public_key(), 0).unwrap();
    let to_a = b.add_peer(endpoint(1), a_id.public_key(), 0).unwrap();
    connect(&mut a, endpoint(1), to_b, &mut b, endpoint(2));
    let packet = ip_packet(&a_id.address(), &b_id.address(), b"once");
    let sealed = datagram(a.handle(Event::TunPacket(packet.clone()), 10, [1; 32]), endpoint(2));

    for cut in 0..sealed.len() {
        let bytes = sealed[..cut].to_vec();
        assert!(b.handle(Event::Datagram { from: endpoint(1), bytes }, 11, [2; 32]).is_none());
    }
    for at in 0..sealed.len() {
        let mut bytes = sealed.clone();
        bytes[at] ^= 0x40;
        assert!(b.handle(Event::Datagram { from: endpoint(1), bytes }, 11, [2; 32]).is_none());
    }
    assert!(b
        .handle(Event::Datagram { from: endpoint(7), bytes: sealed.clone() }, 11, [2; 32])
        .is_none());
    assert!(b.handle(Event::Datagram { from: endpoint(1), bytes: vec![] }, 11, [2; 32]).is_none());
    assert_eq!(b.session_state(to_a), Some(SessionState::Established));

    match b.handle(Event::Datagram { from: endpoint(1), bytes: sealed.clone() }, 12, [2; 32]) {
        Some(Action::WriteTun(got)) => assert_eq!(got, packet),
        _ => panic!("nothing written to the tunnel device"),
    }
    assert!(b.handle(Event::Datagram { from: endpoint(1), bytes: sealed }, 13, [2; 32]).is_none());
    assert_eq!(b.session_state(to_a), Some(SessionState::Established));
}

#[test]
fn packets_without_a_way_are_dropped() {
    let a_id = identity(0xaa);
    let b_id = identity(0xbb);
    let c_id = identity(0xcc);
    let mut a = Dispatcher::new(a_id, 60000, 300000);
    let to_b = a.add_peer(endpoint(2), b_id.public_key(), 0).unwrap();
    let unknown = ip_packet(&a_id.address(), &c_id.address(), b"?");
    assert!(a.handle(Event::TunPacket(unknown), 1, [1; 32]).is_none());
    let own = ip_packet(&a_id.address(), &a_id.address(), b"?");
    assert!(a.handle(Event::TunPacket(own), 1, [1; 32]).is_none());
    assert!(a.handle(Event::TunPacket(vec![0x60; 39]), 1, [1; 32]).is_none());
    assert!(a.handle(Event::TunPacket(vec![]), 1, [1; 32]).is_none());
    let mut v4 = ip_packet(&a_id.address(), &b_id.address(), b"?");
    v4[0] = 0x45;
    assert!(a.handle(Event::TunPacket(v4), 1, [1; 32]).is_none());
    assert_eq!(a.session_state(to_b), Some(SessionState::Uninitiated));
    assert_eq!(a.session_state(0), None);
    assert_eq!(a.session_state(2), None);
    assert_eq!(a.peer_count(), 1);
}

#[test]
fn packet_for_another_node_is_not_written_to_the_tunnel_device() {
    let a_id = identity(0xaa);
    let b_id = identity(0xbb);
    let c_id = identity(0xcc);
    let mut a = Dispatcher::new(a_id, 60000, 300000);
    let mut b = Dispatcher::new(b_id, 60000, 300000);
    let to_b = a.add_peer(endpoint(2), b_id.public_key(), 0).unwrap();
    let _ = b.add_peer(endpoint(1), a_id.public_key(), 0).unwrap();
    connect(&mut a, endpoint(1), to_b, &mut b, endpoint(2));
    let session = *a.peer(to_b).unwrap().session();
    let mut sender = session;
    let stray = ip_packet(&a_id.address(), &c_id.address(), b"not for b");
    let mut message = vec![0u8];
    message.extend_from_slice(&stray);
    let (nonce, sealed) = sender.seal(&[0; 8], &message, 5).unwrap();
    let mut payload = vec![2u8];
    payload.extend_from_slice(&nonce.to_be_bytes());
    payload.extend_from_slice(&sealed);
    let frame = encode(&SwitchLabel::empty(), &payload).unwrap();
    assert!(b.handle(Event::Datagram { from: endpoint(1), bytes: frame }, 6, [1; 32]).is_none());

    let unknown_hop = {
        let (nonce, sealed) = sender.seal(&[9, 0, 0, 0, 0, 0, 0, 0], &message, 5).unwrap();
        let mut payload = vec![2u8];
        payload.extend_from_slice(&nonce.to_be_bytes());
        payload.extend_from_slice(&sealed);
        encode(&SwitchLabel::build(&[9]).unwrap(), &payload).unwrap()
    };
    assert!(b
        .handle(Event::Datagram { from: endpoint(1), bytes: unknown_hop }, 6, [1; 32])
        .is_none());
}

#[test]
fn peers_are_added_once_per_endpoint_and_only_with_a_usable_key() {
    let a_id = identity(0xaa);
    let b_id = identity(0xbb);
    let c_id = identity(0xcc);
    let mut a = Dispatcher::new(a_id, 60000, 300000);
    assert_eq!(a.add_peer(endpoint(2), b_id.public_key(), 0), Some(1));
    assert_eq!(a.add_peer(endpoint(2), c_id.public_key(), 0), None);
    assert_eq!(a.add_peer(endpoint(3), c_id.public_key(), 0), Some(2));
    let mut bytes = [0x55u8; 32];
    let unusable = loop {
        let key = PrivateKey { bytes };
        if PrivateIdentity::from_private_key(&key).is_none() {
            break key.public_key();
        }
        bytes[0] = bytes[0].wrapping_add(1);
    };
    assert_eq!(a.add_peer(endpoint(4), unusable, 0), None);
    assert_eq!(a.peer_count(), 2);
    assert_eq!(a.peer(1).unwrap().endpoint(), endpoint(2));
    assert_eq!(a.peer(2).unwrap().address(), c_id.address());
    assert!(a.peer(3).is_none());
    assert_eq!(a.router().len(), 2);
    assert_eq!(a.router().lookup_any(&c_id.address()).unwrap().next_hop, 2);
    assert_eq!(a.identity().address(), a_id.address());
    let mut full = Dispatcher::new(a_id, 60000, 300000);
    for n in 0..255u16 {
        let at = Endpoint { address: [0; 16], port: n };
        assert_eq!(full.add_peer(at, b_id.public_key(), 0), Some(n as u8 + 1));
    }
    assert_eq!(full.add_peer(Endpoint { address: [0; 16], port: 999 }, b_id.public_key(), 0), None);
}

#[test]
fn idle_sessions_expire_on_a_tick_and_traffic_starts_them_over() {
    let a_id = identity(0xaa);
    let b_id = identity(0xbb);
    let mut a = Dispatcher::new(a_id, 1000, 300000);
    let mut b = Dispatcher::new(b_id, 1000, 300000);
    let to_b = a.add_peer(endpoint(2), b_id.public_key(), 0).unwrap();
    let to_a = b.add_peer(endpoint(1), a_id.public_key(), 0).unwrap();
    connect(&mut a, endpoint(1), to_b, &mut b, endpoint(2));
    assert!(a.router().is_reachable(to_b));
    assert!(a.handle(Event::Tick, 1000, [0; 32]).is_none());
    assert_eq!(a.session_state(to_b), Some(SessionState::Established));
    assert!(a.handle(Event::Tick, 1001, [0; 32]).is_none());
    assert_eq!(a.session_state(to_b), Some(SessionState::Expired));
    assert!(!a.router().is_reachable(to_b));
    assert!(b.handle(Event::Tick, 5000, [0; 32]).is_none());
    assert_eq!(b.session_state(to_a), Some(SessionState::Expired));

    let packet = ip_packet(&a_id.address(), &b_id.address(), b"after the pause");
    let hello = datagram(a.handle(Event::TunPacket(packet.clone()), 6000, [1; 32]), endpoint(2));
    assert_eq!(a.session_state(to_b), Some(SessionState::HandshakeSent));
    let answer = datagram(
        b.handle(Event::Datagram { from: endpoint(1), bytes: hello }, 6001, [2; 32]),
        endpoint(1),
    );
    let sealed = datagram(
        a.handle(Event::Datagram { from: endpoint(2), bytes: answer }, 6002, [3; 32]),
        endpoint(2),
    );
    match b.handle(Event::Datagram { from: endpoint(1), bytes: sealed }, 6003, [4; 32]) {
        Some(Action::WriteTun(got)) => assert_eq!(got, packet),
        _ => panic!("nothing written to the tunnel device"),
    }
}

#[test]
fn poll_draws_its_own_secret() {
    let a_id = identity(0xaa);
    let b_id = identity(0xbb);
    let mut a = Dispatcher::new(a_id, 60000, 300000);
    let mut b = Dispatcher::new(b_id, 60000, 300000);
    let to_b = a.add_peer(endpoint(2), b_id.public_key(), 0).unwrap();
    let to_a = b.add_peer(endpoint(1), a_id.public_key(), 0).unwrap();
    let packet = ip_packet(&a_id.address(), &b_id.address(), b"polled");
    let hello = datagram(a.poll(Event::TunPacket(packet.clone()), 1).ok().unwrap(), endpoint(2));
    let answer = datagram(
        b.poll(Event::Datagram { from: endpoint(1), bytes: hello }, 2).ok().unwrap(),
        endpoint(1),
    );
    let sealed = datagram(
        a.poll(Event::Datagram { from: endpoint(2), bytes: answer }, 3).ok().unwrap(),
        endpoint(2),
    );
    match b.poll(Event::Datagram { from: endpoint(1), bytes: sealed }, 4).ok().unwrap() {
        Some(Action::WriteTun(got)) => assert_eq!(got, packet),
        _ => panic!("nothing written to the tunnel device"),
    }
    assert_eq!(a.session_state(to_b), Some(SessionState::Established));
    assert_eq!(b.session_state(to_a), Some(SessionState::Established));
}

#[test]
fn connecting_and_advertising_are_events_like_any_other() {
    let a_id = identity(0xaa);
    let b_id = identity(0xbb);
    let mut a = Dispatcher::new(a_id, 60000, 300000);
    let mut b = Dispatcher::new(b_id, 60000, 300000);
    let to_b = a.add_peer(endpoint(2), b_id.public_key(), 0).unwrap();
    let to_a = b.add_peer(endpoint(1), a_id.public_key(), 0).unwrap();
    assert!(a.handle(Event::Connect(0), 1, [1; 32]).is_none());
    assert!(a.handle(Event::Connect(2), 1, [1; 32]).is_none());
    let hello = datagram(a.handle(Event::Connect(to_b), 1, [1; 32]), endpoint(2));
    assert!(a.handle(Event::Connect(to_b), 2, [2; 32]).is_none());
    assert_eq!(a.session_state(to_b), Some(SessionState::HandshakeSent));
    let answer =
        datagram(b.handle(Event::Datagram { from: endpoint(1), bytes: hello }, 3, [3; 32]), endpoint(1));
    assert!(a.handle(Event::Datagram { from: endpoint(2), bytes: answer }, 4, [4; 32]).is_none());
    assert!(a.handle(Event::Connect(to_b), 5, [5; 32]).is_none());
    assert_eq!(a.session_state(to_b), Some(SessionState::Established));
    let own = Event::Advertise { to: to_a, destination: b_id.address() };
    let advert = datagram(b.handle(own, 6, [6; 32]), endpoint(1));
    assert!(a.handle(Event::Datagram { from: endpoint(2), bytes: advert }, 7, [7; 32]).is_none());
    assert!(a.router().lookup(&b_id.address()).is_some());
    let about_a = Event::Advertise { to: to_a, destination: a_id.address() };
    assert!(b.handle(about_a, 8, [8; 32]).is_none());
}

#[test]
fn only_steps_that_may_send_a_handshake_need_a_secret() {
    let a_id = identity(0xaa);
    let b_id = identity(0xbb);
    let c_id = identity(0xcc);
    let mut a = Dispatcher::new(a_id, 60000, 300000);
    let mut b = Dispatcher::new(b_id, 60000, 300000);
    let to_b = a.add_peer(endpoint(2), b_id.public_key(), 0).unwrap();
    let to_a = b.add_peer(endpoint(1), a_id.public_key(), 0).unwrap();
    let packet = ip_packet(&a_id.address(), &b_id.address(), b"x");
    let stray = ip_packet(&a_id.address(), &c_id.address(), b"x");
    assert!(!a.needs_secret(&Event::Tick));
    assert!(!a.needs_secret(&Event::Advertise { to: to_b, destination: a_id.address() }));
    assert!(a.needs_secret(&Event::Connect(to_b)));
    assert!(!a.needs_secret(&Event::Connect(9)));
    assert!(a.needs_secret(&Event::TunPacket(packet.clone())));
    assert!(!a.needs_secret(&Event::TunPacket(stray)));
    assert!(!a.needs_secret(&Event::TunPacket(vec![])));
    assert!(!a.needs_secret(&Event::Datagram { from: endpoint(2), bytes: vec![1, 2, 3] }));
    let hello = datagram(a.connect(to_b, 1, [1; 32]), endpoint(2));
    assert!(!a.needs_secret(&Event::Connect(to_b)));
    assert!(!a.needs_secret(&Event::TunPacket(packet.clone())));
    assert!(b.needs_secret(&Event::Datagram { from: endpoint(1), bytes: hello.clone() }));
    assert!(!b.needs_secret(&Event::Datagram { from: endpoint(9), bytes: hello.clone() }));
    let answer =
        datagram(b.handle(Event::Datagram { from: endpoint(1), bytes: hello }, 2, [2; 32]), endpoint(1));
    assert!(!a.needs_secret(&Event::Datagram { from: endpoint(2), bytes: answer.clone() }));
    assert!(a.handle(Event::Datagram { from: endpoint(2), bytes: answer }, 3, [3; 32]).is_none());
    assert!(!b.needs_secret(&Event::TunPacket(ip_packet(&b_id.address(), &a_id.address(), b"y"))));
    let sealed = datagram(a.poll(Event::TunPacket(packet.clone()), 4).ok().unwrap(), endpoint(2));
    assert!(!b.needs_secret(&Event::Datagram { from: endpoint(1), bytes: sealed.clone() }));
    match b.poll(Event::Datagram { from: endpoint(1), bytes: sealed }, 5).ok().unwrap() {
        Some(Action::WriteTun(got)) => assert_eq!(got, packet),
        _ => panic!("nothing written to the tunnel device"),
    }
    assert!(a.poll(Event::Tick, 6).ok().unwrap().is_none());
    assert_eq!(b.session_state(to_a), Some(SessionState::Established));
}

fn shown(events: &[Event]) -> Vec<String> {
    events.iter().map(|e| format!("{:?}", e)).collect()
}

#[test]
fn schedule_raises_what_is_due_and_moves_the_deadlines() {
    let own = Address { bytes: [1; 16] };
    let far = Address { bytes: [2; 16] };
    let mut schedule = Schedule::new(1000, 10000);
    assert_eq!((schedule.next_tick, schedule.next_advertisement), (0, 0));
    let first = schedule.due(5, 2, &[far, own]);
    let expected = vec![
        Event::Tick,
        Event::Connect(1),
        Event::Connect(2),
        Event::Advertise { to: 1, destination: far },
        Event::Advertise { to: 1, destination: own },
        Event::Advertise { to: 2, destination: far },
        Event::Advertise { to: 2, destination: own },
    ];
    assert_eq!(shown(&first), shown(&expected));
    assert_eq!((schedule.next_tick, schedule.next_advertisement), (1005, 10005));
    assert!(schedule.due(1004, 2, &[far, own]).is_empty());
    assert_eq!((schedule.next_tick, schedule.next_advertisement), (1005, 10005));
    let second = schedule.due(1005, 2, &[far, own]);
    assert_eq!(shown(&second), shown(&[Event::Tick, Event::Connect(1), Event::Connect(2)]));
    assert_eq!((schedule.next_tick, schedule.next_advertisement), (2005, 10005));
    let third = schedule.due(20000, 0, &[own]);
    assert_eq!(shown(&third), shown(&[Event::Tick]));
    assert_eq!((schedule.next_tick, schedule.next_advertisement), (21000, 30000));
    let last = schedule.due(u64::MAX - 5, 1, &[]);
    assert_eq!(shown(&last), shown(&[Event::Tick, Event::Connect(1)]));
    assert_eq!((schedule.next_tick, schedule.next_advertisement), (u64::MAX, u64::MAX));
    assert_eq!(schedule.tick_interval, 1000);
    assert_eq!(schedule.advertise_interval, 10000);
}
