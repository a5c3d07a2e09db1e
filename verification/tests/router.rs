use cjdrs::identity::Address;
use cjdrs::label::SwitchLabel;
use cjdrs::router::{distance, Advertisement, Learned, Router, LOCAL};

fn address(last: u8) -> Address {
    let mut bytes = [0u8; 16];
    bytes[0] = 0xfc;
    bytes[15] = last;
    Address { bytes }
}

fn advert(from: u8, destination: Address, path: &[u8], metric: u32) -> Advertisement {
    Advertisement { from, destination, label: SwitchLabel::build(path).unwrap(), metric }
}

#[test]
fn distance_is_the_xor_of_the_addresses_as_numbers() {
    assert_eq!(distance(&address(5), &address(3)), 6);
    assert_eq!(distance(&address(5), &address(5)), 0);
    assert_eq!(distance(&address(3), &address(5)), distance(&address(5), &address(3)));
    let mut far = address(1);
    far.bytes[0] = 0xfd;
    assert_eq!(distance(&address(0), &far), (1u128 << 120) | 1);
    assert_eq!(distance(&Address { bytes: [0; 16] }, &Address { bytes: [0xff; 16] }), u128::MAX);
    assert!(distance(&address(8), &address(9)) < distance(&address(8), &address(1)));
}

#[test]
fn own_address_is_always_reached_with_the_empty_label() {
    let router = Router::new(&address(1));
    let route = router.lookup(&address(1)).unwrap();
    assert_eq!(route.next_hop, LOCAL);
    assert_eq!(route.label.len(), 0);
    assert_eq!(route.metric, 0);
    assert_eq!(router.own_address(), address(1));
    assert_eq!(router.len(), 0);
    assert!(router.lookup_any(&address(1)).is_some());
}

#[test]
fn unknown_destination_has_no_route() {
    let mut router = Router::new(&address(1));
    assert!(router.lookup(&address(9)).is_none());
    assert!(router.lookup_any(&address(9)).is_none());
    router.set_reachable(1, true);
    assert_eq!(router.learn(&advert(1, address(8), &[], 0), 0), Learned::Inserted);
    assert!(router.lookup(&address(9)).is_none());
    assert!(router.lookup_any(&address(9)).is_none());
}

#[test]
fn learned_route_goes_through_the_advertising_peer() {
    let mut router = Router::new(&address(1));
    assert_eq!(router.learn(&advert(4, address(9), &[7, 2], 2), 100), Learned::Inserted);
    assert_eq!(router.len(), 1);
    assert!(router.lookup(&address(9)).is_none());
    let dormant = router.lookup_any(&address(9)).unwrap();
    assert_eq!(dormant.next_hop, 4);
    router.set_reachable(4, true);
    assert!(router.is_reachable(4));
    assert!(!router.is_reachable(5));
    let route = router.lookup(&address(9)).unwrap();
    assert_eq!(route.next_hop, 4);
    assert_eq!(route.metric, 3);
    assert_eq!(route.label.to_bytes(), [4, 7, 2, 0, 0, 0, 0, 0]);
    router.set_reachable(4, false);
    assert!(router.lookup(&address(9)).is_none());
}

#[test]
fn known_route_is_replaced_only_by_a_strictly_shorter_one() {
    let mut router = Router::new(&address(1));
    router.set_reachable(4, true);
    assert_eq!(router.learn(&advert(4, address(9), &[7, 2], 2), 100), Learned::Inserted);
    assert_eq!(router.learn(&advert(4, address(9), &[7, 2, 3], 3), 101), Learned::Kept);
    assert_eq!(router.lookup(&address(9)).unwrap().metric, 3);
    assert_eq!(router.learn(&advert(4, address(9), &[8, 2], 2), 102), Learned::Kept);
    assert_eq!(router.lookup(&address(9)).unwrap().label.to_bytes(), [4, 7, 2, 0, 0, 0, 0, 0]);
    assert_eq!(router.learn(&advert(4, address(9), &[7, 2], 2), 103), Learned::Refreshed);
    assert_eq!(router.lookup(&address(9)).unwrap().metric, 3);
    assert_eq!(router.learn(&advert(4, address(9), &[5], 1), 104), Learned::Replaced);
    let route = router.lookup(&address(9)).unwrap();
    assert_eq!(route.metric, 2);
    assert_eq!(route.label.to_bytes(), [4, 5, 0, 0, 0, 0, 0, 0]);
    assert_eq!(router.learn(&advert(4, address(9), &[7, 2], 2), 105), Learned::Kept);
    assert_eq!(router.lookup(&address(9)).unwrap().metric, 2);
    assert_eq!(router.len(), 1);
}

#[test]
fn learning_never_makes_the_best_route_longer() {
    let mut router = Router::new(&address(1));
    router.set_reachable(2, true);
    router.set_reachable(3, true);
    let offers: [(u8, &[u8], u32); 8] = [
        (2, &[5, 5, 5], 3),
        (3, &[6, 6, 6, 6], 4),
        (2, &[5, 5, 5, 5, 5], 5),
        (3, &[6, 6], 2),
        (2, &[9], 9),
        (3, &[6, 6, 6], 3),
        (2, &[5], 1),
        (3, &[1, 1, 1, 1, 1, 1, 1], 7),
    ];
    let mut best = u32::MAX;
    for (from, path, metric) in offers {
        router.learn(&advert(from, address(9), path, metric), 0);
        let now = router.lookup(&address(9)).unwrap().metric;
        assert!(now <= best);
        best = now;
    }
    assert_eq!(best, 2);
    assert_eq!(router.lookup(&address(9)).unwrap().next_hop, 2);
    assert_eq!(router.len(), 2);
}

#[test]
fn shortest_reachable_route_wins_and_ties_go_to_the_route_known_first() {
    let mut router = Router::new(&address(1));
    router.learn(&advert(5, address(9), &[1], 1), 0);
    router.learn(&advert(3, address(9), &[1, 1], 2), 0);
    router.learn(&advert(7, address(9), &[2], 1), 0);
    router.learn(&advert(2, address(9), &[], 0), 0);
    assert!(router.lookup(&address(9)).is_none());
    assert_eq!(router.lookup_any(&address(9)).unwrap().next_hop, 2);
    router.set_reachable(3, true);
    assert_eq!(router.lookup(&address(9)).unwrap().next_hop, 3);
    router.set_reachable(7, true);
    assert_eq!(router.lookup(&address(9)).unwrap().next_hop, 7);
    router.set_reachable(5, true);
    let route = router.lookup(&address(9)).unwrap();
    assert_eq!(route.next_hop, 5);
    assert_eq!(route.metric, 2);
    router.set_reachable(2, true);
    let route = router.lookup(&address(9)).unwrap();
    assert_eq!(route.next_hop, 2);
    assert_eq!(route.metric, 1);
    assert_eq!(route.label.to_bytes(), [2, 0, 0, 0, 0, 0, 0, 0]);
    router.set_reachable(2, false);
    router.set_reachable(5, false);
    assert_eq!(router.lookup(&address(9)).unwrap().next_hop, 7);
}

#[test]
fn equally_short_route_through_another_peer_moves_nothing() {
    let mut router = Router::new(&address(1));
    router.set_reachable(3, true);
    router.set_reachable(5, true);
    assert_eq!(router.learn(&advert(5, address(9), &[8], 1), 0), Learned::Inserted);
    let before = router.lookup(&address(9)).unwrap();
    assert_eq!(before.next_hop, 5);
    assert_eq!(before.metric, 2);
    assert_eq!(router.learn(&advert(3, address(9), &[4], 1), 1), Learned::Inserted);
    let after = router.lookup(&address(9)).unwrap();
    assert_eq!(after.next_hop, 5);
    assert_eq!(after.metric, 2);
    assert_eq!(after.label.to_bytes(), before.label.to_bytes());
    assert_eq!(router.learn(&advert(3, address(9), &[4, 4], 2), 2), Learned::Kept);
    assert_eq!(router.lookup(&address(9)).unwrap().next_hop, 5);
    assert_eq!(router.learn(&advert(5, address(9), &[8], 1), 3), Learned::Refreshed);
    assert_eq!(router.lookup(&address(9)).unwrap().next_hop, 5);
    assert_eq!(router.learn(&advert(3, address(9), &[], 0), 4), Learned::Replaced);
    let shorter = router.lookup(&address(9)).unwrap();
    assert_eq!(shorter.next_hop, 3);
    assert_eq!(shorter.metric, 1);
    assert_eq!(router.learn(&advert(5, address(9), &[], 0), 5), Learned::Replaced);
    assert_eq!(router.lookup(&address(9)).unwrap().next_hop, 3);
}

#[test]
fn route_shortened_to_a_tie_stands_behind_the_route_in_use() {
    let mut router = Router::new(&address(1));
    router.set_reachable(3, true);
    router.set_reachable(5, true);
    router.learn(&advert(3, address(9), &[4, 4, 4], 3), 0);
    router.learn(&advert(5, address(9), &[8], 1), 1);
    assert_eq!(router.lookup(&address(9)).unwrap().next_hop, 5);
    assert_eq!(router.learn(&advert(3, address(9), &[4], 1), 2), Learned::Replaced);
    assert_eq!(router.lookup(&address(9)).unwrap().next_hop, 5);
    router.set_reachable(5, false);
    assert_eq!(router.lookup(&address(9)).unwrap().next_hop, 3);
}

#[test]
fn advertisements_that_cannot_be_used_are_rejected() {
    let mut router = Router::new(&address(1));
    assert_eq!(router.learn(&advert(LOCAL, address(9), &[1], 1), 0), Learned::Rejected);
    assert_eq!(router.learn(&advert(2, address(1), &[1], 1), 0), Learned::Rejected);
    assert_eq!(router.learn(&advert(2, address(9), &[1; 8], 8), 0), Learned::Rejected);
    assert_eq!(router.learn(&advert(2, address(9), &[1], u32::MAX), 0), Learned::Rejected);
    assert_eq!(router.len(), 0);
    assert_eq!(router.learn(&advert(2, address(9), &[1; 7], u32::MAX - 1), 0), Learned::Inserted);
    assert_eq!(router.lookup_any(&address(9)).unwrap().metric, u32::MAX);
}

#[test]
fn stale_routes_are_evicted_but_not_the_one_to_a_direct_peer() {
    let mut router = Router::new(&address(1));
    router.set_reachable(2, true);
    router.learn(&advert(2, address(7), &[], 0), 0);
    router.learn(&advert(2, address(8), &[3], 1), 0);
    router.learn(&advert(2, address(9), &[4], 1), 60);
    router.evict_stale(99, 100);
    assert_eq!(router.len(), 3);
    router.evict_stale(100, 100);
    assert_eq!(router.len(), 2);
    assert!(router.lookup(&address(8)).is_none());
    assert!(router.lookup(&address(9)).is_some());
    assert_eq!(router.learn(&advert(2, address(9), &[4], 1), 150), Learned::Refreshed);
    router.evict_stale(200, 100);
    assert!(router.lookup(&address(9)).is_some());
    router.evict_stale(250, 100);
    assert!(router.lookup(&address(9)).is_none());
    assert!(router.lookup(&address(7)).is_some());
    router.evict_stale(u64::MAX, 0);
    assert_eq!(router.len(), 1);
    router.evict_stale(0, 100);
    assert_eq!(router.len(), 1);
}

#[test]
fn destinations_lists_what_the_table_leads_to() {
    let mut router = Router::new(&address(1));
    assert!(router.destinations().is_empty());
    router.learn(&advert(2, address(8), &[3], 1), 0);
    router.learn(&advert(3, address(8), &[3], 1), 0);
    router.learn(&advert(2, address(9), &[4], 1), 0);
    let known = router.destinations();
    assert!(known.contains(&address(8)));
    assert!(known.contains(&address(9)));
    assert!(!known.contains(&address(1)));
    assert_eq!(router.len(), 3);
}
