//! The routing table: which direct peer leads to which address, by what label
//! and at what cost.

use vstd::prelude::*;
use crate::identity::Address;
use crate::label::{is_path, SwitchLabel, LABEL_LEN};

verus! {

/// The directive that names no peer: the node itself.
pub const LOCAL: u8 = 0;

/// The distance between two addresses: their bitwise exclusive-or, read as one
/// unsigned number. The smaller, the closer.
pub fn distance(a: &Address, b: &Address) -> (d: u128)
    ensures
        d == (a.value() as u128) ^ (b.value() as u128),
{
    a.to_u128() ^ b.to_u128()
}

/// No address is closer to an address than the address itself, and only it is
/// at distance zero; the distance is the same in both directions.
pub proof fn lemma_distance_is_a_metric(a: Address, b: Address)
    ensures
        (a.value() as u128) ^ (a.value() as u128) == 0,
        (a.value() as u128) ^ (b.value() as u128) == (b.value() as u128) ^ (a.value() as u128),
        (a.value() as u128) ^ (b.value() as u128) == 0 ==> a == b,
{
    let x = a.value() as u128;
    let y = b.value() as u128;
    assert(x ^ x == 0) by (bit_vector);
    assert(x ^ y == y ^ x) by (bit_vector);
    if x ^ y == 0 {
        assert(x ^ y == 0 ==> x == y) by (bit_vector);
        crate::bytes::lemma_be_value_bound(a@);
        crate::bytes::lemma_be_value_bound(b@);
        crate::bytes::lemma_pow256_values();
        crate::bytes::lemma_be_bytes_of_value(a@);
        crate::bytes::lemma_be_bytes_of_value(b@);
        assert(a.bytes =~= b.bytes);
    }
}

/// What the table knows of one way to a destination.
pub struct RouteInfo {
    /// The directives to follow, the one of the next hop first.
    pub path: Seq<u8>,
    /// The number of hops.
    pub metric: u32,
    /// When the route was learned or last confirmed.
    pub learned_at: u64,
    /// The turn at which the route came to stand at its metric: of two routes
    /// the one with the lower rank was known first.
    pub rank: u64,
}

/// A route advertisement as plain values.
pub struct AdvertisementView {
    pub from: u8,
    pub destination: Seq<u8>,
    pub path: Seq<u8>,
    pub metric: u32,
}

/// What `learn` did with an advertisement.
#[derive(Clone, Copy, Debug, PartialEq, Eq, Structural)]
pub enum Learned {
    /// The table had no route to the destination through this peer.
    Inserted,
    /// The advertised route is strictly shorter than the one the table had.
    Replaced,
    /// The advertised route is the one the table has; it counts as fresh again.
    Refreshed,
    /// The table has a route through this peer that is as short or shorter.
    Kept,
    /// The advertisement cannot be used at all.
    Rejected,
}

/// The router as plain values: for each destination and each direct peer the
/// route through that peer, if one is known, and the peers that can be reached.
pub struct RouterView {
    pub own: Seq<u8>,
    pub routes: Map<(Seq<u8>, u8), RouteInfo>,
    pub reachable: Set<u8>,
    /// The rank that the next route to be inserted or shortened gets.
    pub next_rank: u64,
}

/// Whether the route with metric `m1` and rank `r1` is taken before the one
/// with `m2` and `r2`: the shorter first, and of two equally short ones the
/// one that was known first.
pub open spec fn preferred(m1: u32, r1: u64, m2: u32, r2: u64) -> bool {
    m1 < m2 || (m1 == m2 && r1 <= r2)
}

impl RouterView {
    /// Every route begins with the directive of the peer it goes through,
    /// and no two routes have the same rank.
    pub open spec fn wf(self) -> bool {
        &&& forall|k: (Seq<u8>, u8)| #[trigger]
            self.routes.contains_key(k) ==> {
                &&& k.1 != LOCAL
                &&& is_path(self.routes[k].path)
                &&& self.routes[k].path.len() >= 1
                &&& self.routes[k].path[0] == k.1
                &&& self.routes[k].rank < self.next_rank
            }
        &&& forall|j: (Seq<u8>, u8), k: (Seq<u8>, u8)|
            #[trigger] self.routes.contains_key(j) && #[trigger] self.routes.contains_key(k)
                && self.routes[j].rank == self.routes[k].rank ==> j == k
    }

    /// The route that an advertisement offers.
    pub open spec fn offered(adv: AdvertisementView, now: u64, rank: u64) -> RouteInfo {
        RouteInfo {
            path: seq![adv.from] + adv.path,
            metric: (adv.metric + 1) as u32,
            learned_at: now,
            rank,
        }
    }

    /// Whether an advertisement can be used at all: it comes from a peer, is
    /// not about this node, its route has room for one more hop, and the ranks
    /// are not used up.
    pub open spec fn admits(self, adv: AdvertisementView) -> bool {
        &&& adv.from != LOCAL
        &&& adv.destination != self.own
        &&& adv.path.len() < LABEL_LEN
        &&& adv.metric < u32::MAX
        &&& self.next_rank < u64::MAX
    }

    /// Whether the offered route is new or strictly shorter than the one known.
    pub open spec fn improves(self, adv: AdvertisementView) -> bool {
        let key = (adv.destination, adv.from);
        self.admits(adv) && (!self.routes.contains_key(key) || adv.metric + 1
            < self.routes[key].metric)
    }

    /// Whether the offered route is exactly the one known.
    pub open spec fn confirms(self, adv: AdvertisementView) -> bool {
        let key = (adv.destination, adv.from);
        &&& self.admits(adv)
        &&& self.routes.contains_key(key)
        &&& adv.metric + 1 == self.routes[key].metric
        &&& seq![adv.from] + adv.path == self.routes[key].path
    }

    /// The router after an advertisement was merged. A route that is new or
    /// strictly shorter than the one known through that peer takes its place
    /// behind every route known so far; a route that is confirmed keeps its
    /// place and counts as fresh again; anything else changes nothing.
    pub open spec fn learned(self, adv: AdvertisementView, now: u64) -> RouterView {
        let key = (adv.destination, adv.from);
        if self.improves(adv) {
            RouterView {
                routes: self.routes.insert(key, RouterView::offered(adv, now, self.next_rank)),
                next_rank: (self.next_rank + 1) as u64,
                ..self
            }
        } else if self.confirms(adv) {
            RouterView {
                routes: self.routes.insert(
                    key,
                    RouteInfo { learned_at: now, ..self.routes[key] },
                ),
                ..self
            }
        } else {
            self
        }
    }

    /// Whether an advertisement brings a route to `destination` that is
    /// strictly shorter than the one in use.
    pub open spec fn shortens(self, adv: AdvertisementView, destination: Seq<u8>) -> bool {
        &&& adv.destination == destination
        &&& self.improves(adv)
        &&& self.best_hop(destination) matches Some(hop) ==> adv.metric + 1 < self.routes[(
            destination,
            hop,
        )].metric
    }

    /// What `learn` reports of an advertisement.
    pub open spec fn outcome(self, adv: AdvertisementView) -> Learned {
        let key = (adv.destination, adv.from);
        if !self.admits(adv) {
            Learned::Rejected
        } else if !self.routes.contains_key(key) {
            Learned::Inserted
        } else if self.improves(adv) {
            Learned::Replaced
        } else if self.confirms(adv) {
            Learned::Refreshed
        } else {
            Learned::Kept
        }
    }

    /// Whether a route has not been confirmed for `max_age` or longer. The
    /// route to a direct peer, a single hop, never counts as stale.
    pub open spec fn is_stale(info: RouteInfo, now: u64, max_age: u64) -> bool {
        info.path.len() > 1 && now >= info.learned_at && now - info.learned_at >= max_age
    }

    /// The router after the stale routes were evicted.
    pub open spec fn evicted(self, now: u64, max_age: u64) -> RouterView {
        RouterView {
            routes: Map::new(
                |k: (Seq<u8>, u8)|
                    self.routes.contains_key(k) && !RouterView::is_stale(
                        self.routes[k],
                        now,
                        max_age,
                    ),
                |k: (Seq<u8>, u8)| self.routes[k],
            ),
            ..self
        }
    }

    /// Whether the table has a route to `destination` through peer `hop` and
    /// that peer can be reached.
    pub open spec fn is_candidate(self, destination: Seq<u8>, hop: u8) -> bool {
        self.routes.contains_key((destination, hop)) && self.reachable.contains(hop)
    }

    /// Whether the route through `hop` is the one to take to `destination`.
    pub open spec fn is_best(self, destination: Seq<u8>, hop: u8) -> bool {
        &&& self.is_candidate(destination, hop)
        &&& forall|h: u8| #[trigger]
            self.is_candidate(destination, h) ==> preferred(
                self.routes[(destination, hop)].metric,
                self.routes[(destination, hop)].rank,
                self.routes[(destination, h)].metric,
                self.routes[(destination, h)].rank,
            )
    }
}

impl RouterView {
    /// Whether the table has a route to `destination` through some peer.
    pub open spec fn leads_to(self, destination: Seq<u8>) -> bool {
        exists|h: u8| self.routes.contains_key((destination, h))
    }

    /// The router with every peer counted as reachable, where `any` says so.
    pub open spec fn widened(self, any: bool) -> RouterView {
        if any {
            RouterView { reachable: Set::<u8>::full(), ..self }
        } else {
            self
        }
    }

    /// The peer that the best route to `destination` leads through, whether
    /// or not it can be reached by now.
    pub open spec fn any_hop(self, destination: Seq<u8>) -> Option<u8> {
        self.widened(true).best_hop(destination)
    }

    /// The peer to try for `destination`: the one that `best_hop` names, or
    /// where none can be reached the one that `any_hop` names.
    pub open spec fn chosen_hop(self, destination: Seq<u8>) -> Option<u8> {
        if self.best_hop(destination) is Some {
            self.best_hop(destination)
        } else {
            self.any_hop(destination)
        }
    }

    /// The peer to hand a packet for `destination` to, if any leads there.
    pub open spec fn best_hop(self, destination: Seq<u8>) -> Option<u8> {
        if exists|h: u8| self.is_best(destination, h) {
            Some(choose|h: u8| self.is_best(destination, h))
        } else {
            None
        }
    }

    /// At most one route is the one to take.
    pub proof fn lemma_best_is_unique(self, destination: Seq<u8>, a: u8, b: u8)
        requires
            self.wf(),
            self.is_best(destination, a),
            self.is_best(destination, b),
        ensures
            a == b,
            self.best_hop(destination) == Some(a),
    {
        assert(self.is_candidate(destination, a));
        assert(self.is_candidate(destination, b));
        assert(self.routes.contains_key((destination, a)));
        assert(self.routes.contains_key((destination, b)));
        let c = choose|h: u8| self.is_best(destination, h);
        assert(self.is_candidate(destination, c));
        assert(self.routes.contains_key((destination, c)));
    }
}

/// Merging an advertisement never loses a route and never makes one longer:
/// whatever was known through a peer is afterwards known through that peer at
/// the same or a smaller metric, so that the best route to any destination is
/// afterwards as short or shorter, whichever peers can be reached.
pub proof fn lemma_learn_never_worsens(
    v: RouterView,
    adv: AdvertisementView,
    now: u64,
    destination: Seq<u8>,
    hop: u8,
)
    requires
        v.routes.contains_key((destination, hop)),
    ensures
        v.learned(adv, now).routes.contains_key((destination, hop)),
        v.learned(adv, now).routes[(destination, hop)].metric <= v.routes[(
            destination,
            hop,
        )].metric,
        v.learned(adv, now).reachable == v.reachable,
        v.is_candidate(destination, hop) ==> v.learned(adv, now).is_candidate(destination, hop),
        forall|best: u8|
            v.is_candidate(destination, hop) && v.learned(adv, now).is_best(destination, best)
                ==> v.learned(adv, now).routes[(destination, best)].metric <= v.routes[(
                destination,
                hop,
            )].metric,
{
    let after = v.learned(adv, now);
    assert forall|best: u8|
        v.is_candidate(destination, hop) && after.is_best(destination, best) implies after.routes[(
        destination,
        best,
    )].metric <= v.routes[(destination, hop)].metric by {
        assert(after.is_candidate(destination, hop));
    }
}

/// A tie moves nothing: unless the advertisement brings a route to
/// `destination` that is strictly shorter than the one in use, the route in
/// use stays the one to take, through the same peer, along the same path and
/// at the same metric.
pub proof fn lemma_learn_keeps_route_in_use(
    v: RouterView,
    adv: AdvertisementView,
    now: u64,
    destination: Seq<u8>,
)
    requires
        v.wf(),
        v.best_hop(destination) is Some,
        !v.shortens(adv, destination),
    ensures
        v.learned(adv, now).best_hop(destination) == v.best_hop(destination),
        ({
            let key = (destination, v.best_hop(destination)->0);
            &&& v.routes.contains_key(key)
            &&& v.learned(adv, now).routes.contains_key(key)
            &&& v.learned(adv, now).routes[key].path == v.routes[key].path
            &&& v.learned(adv, now).routes[key].metric == v.routes[key].metric
        }),
{
    let after = v.learned(adv, now);
    let hop = choose|h: u8| v.is_best(destination, h);
    let key = (destination, hop);
    assert(v.is_candidate(destination, hop));
    assert(v.routes.contains_key(key));
    assert(after.is_candidate(destination, hop));
    assert forall|h: u8| #[trigger] after.is_candidate(destination, h) implies preferred(
        after.routes[key].metric,
        after.routes[key].rank,
        after.routes[(destination, h)].metric,
        after.routes[(destination, h)].rank,
    ) by {
        if (destination, h) == (adv.destination, adv.from) && v.improves(adv) {
            if h == hop {
            } else {
                assert(after.routes[key] == v.routes[key]);
            }
        } else {
            assert(v.routes.contains_key((destination, h)));
            assert(v.is_candidate(destination, h));
        }
    }
    assert(after.is_best(destination, hop));
    lemma_best_after_learn(v, adv, now, destination, hop);
}

/// The one route that is best after merging is what `best_hop` names.
proof fn lemma_best_after_learn(
    v: RouterView,
    adv: AdvertisementView,
    now: u64,
    destination: Seq<u8>,
    hop: u8,
)
    requires
        v.wf(),
        v.learned(adv, now).is_best(destination, hop),
    ensures
        v.learned(adv, now).best_hop(destination) == Some(hop),
{
    let after = v.learned(adv, now);
    lemma_learn_keeps_ranks(v, adv, now);
    let c = choose|h: u8| after.is_best(destination, h);
    assert(after.is_candidate(destination, hop));
    assert(after.is_candidate(destination, c));
    assert(after.routes.contains_key((destination, hop)));
    assert(after.routes.contains_key((destination, c)));
}

/// Merging an advertisement keeps the ranks apart and below the next one.
proof fn lemma_learn_keeps_ranks(v: RouterView, adv: AdvertisementView, now: u64)
    requires
        v.wf(),
    ensures
        forall|k: (Seq<u8>, u8)| #[trigger]
            v.learned(adv, now).routes.contains_key(k) ==> v.learned(adv, now).routes[k].rank
                < v.learned(adv, now).next_rank,
        forall|j: (Seq<u8>, u8), k: (Seq<u8>, u8)|
            #[trigger] v.learned(adv, now).routes.contains_key(j) && #[trigger] v.learned(
                adv,
                now,
            ).routes.contains_key(k) && v.learned(adv, now).routes[j].rank == v.learned(
                adv,
                now,
            ).routes[k].rank ==> j == k,
{
    let after = v.learned(adv, now);
    let key = (adv.destination, adv.from);
    assert forall|k: (Seq<u8>, u8)| #[trigger]
        after.routes.contains_key(k) implies after.routes[k].rank < after.next_rank by {
        if k != key {
            assert(v.routes.contains_key(k));
        } else if !v.improves(adv) {
            assert(v.routes.contains_key(k));
        }
    }
    assert forall|j: (Seq<u8>, u8), k: (Seq<u8>, u8)|
        #[trigger] after.routes.contains_key(j) && #[trigger] after.routes.contains_key(k)
            && after.routes[j].rank == after.routes[k].rank implies j == k by {
        if j != key || !v.improves(adv) {
            assert(v.routes.contains_key(j));
        }
        if k != key || !v.improves(adv) {
            assert(v.routes.contains_key(k));
        }
    }
}

/// Merging an advertisement keeps every route beginning with the directive of
/// the peer it goes through, and the ranks apart.
pub proof fn lemma_learn_keeps_wf(v: RouterView, adv: AdvertisementView, now: u64)
    requires
        v.wf(),
        is_path(adv.path),
    ensures
        v.learned(adv, now).wf(),
{
    let after = v.learned(adv, now);
    lemma_learn_keeps_ranks(v, adv, now);
    assert forall|k: (Seq<u8>, u8)| #[trigger] after.routes.contains_key(k) implies {
        &&& k.1 != LOCAL
        &&& is_path(after.routes[k].path)
        &&& after.routes[k].path.len() >= 1
        &&& after.routes[k].path[0] == k.1
    } by {
        if k != (adv.destination, adv.from) {
            assert(v.routes.contains_key(k));
        } else if !(v.improves(adv) || v.confirms(adv)) {
            assert(v.routes.contains_key(k));
        } else if !v.improves(adv) {
            assert(v.routes.contains_key(k));
        }
    }
}

/// A route advertisement from a direct peer: the peer can reach `destination`
/// in `metric` hops along `label`.
#[derive(Clone, Copy, Debug)]
pub struct Advertisement {
    /// The directive of the peer that sent it.
    pub from: u8,
    pub destination: Address,
    /// The way from the peer to the destination.
    pub label: SwitchLabel,
    pub metric: u32,
}

impl View for Advertisement {
    type V = AdvertisementView;

    open spec fn view(&self) -> AdvertisementView {
        AdvertisementView {
            from: self.from,
            destination: self.destination@,
            path: self.label@,
            metric: self.metric,
        }
    }
}

/// A way to a destination: the peer to hand the packet to, and the label to
/// send it with. The first directive of the label is that of the peer.
#[derive(Clone, Copy, Debug)]
pub struct Route {
    pub next_hop: u8,
    pub label: SwitchLabel,
    pub metric: u32,
}

#[derive(Clone, Copy, Debug)]
struct RouteEntry {
    destination: Address,
    next_hop: u8,
    label: SwitchLabel,
    metric: u32,
    learned_at: u64,
    rank: u64,
}

spec fn key_of(e: RouteEntry) -> (Seq<u8>, u8) {
    (e.destination@, e.next_hop)
}

spec fn info_of(e: RouteEntry) -> RouteInfo {
    RouteInfo { path: e.label@, metric: e.metric, learned_at: e.learned_at, rank: e.rank }
}

spec fn has_key(entries: Seq<RouteEntry>, k: (Seq<u8>, u8), i: int) -> bool {
    0 <= i < entries.len() && key_of(entries[i]) == k
}

/// Every rank is below `next`, and no two entries have the same.
spec fn ranked(entries: Seq<RouteEntry>, next: u64) -> bool {
    &&& forall|i: int| 0 <= i < entries.len() ==> (#[trigger] entries[i]).rank < next
    &&& forall|i: int, j: int|
        0 <= i < j < entries.len() ==> (#[trigger] entries[i]).rank != (#[trigger] entries[j]).rank
}

spec fn unique_keys(entries: Seq<RouteEntry>) -> bool {
    forall|i: int, j: int|
        0 <= i < j < entries.len() ==> #[trigger] key_of(entries[i]) != #[trigger] key_of(
            entries[j],
        )
}

spec fn routes_of(entries: Seq<RouteEntry>) -> Map<(Seq<u8>, u8), RouteInfo> {
    Map::new(
        |k: (Seq<u8>, u8)| exists|i: int| has_key(entries, k, i),
        |k: (Seq<u8>, u8)| info_of(entries[choose|i: int| has_key(entries, k, i)]),
    )
}

proof fn lemma_routes_of(entries: Seq<RouteEntry>, i: int)
    requires
        unique_keys(entries),
        0 <= i < entries.len(),
    ensures
        routes_of(entries).contains_key(key_of(entries[i])),
        routes_of(entries)[key_of(entries[i])] == info_of(entries[i]),
{
    let k = key_of(entries[i]);
    assert(has_key(entries, k, i));
    let j = choose|j: int| has_key(entries, k, j);
    assert(i == j);
}

/// The routing table of one node.
pub struct Router {
    own: Address,
    entries: Vec<RouteEntry>,
    up: [bool; 256],
    next_rank: u64,
}

impl View for Router {
    type V = RouterView;

    closed spec fn view(&self) -> RouterView {
        RouterView {
            own: self.own@,
            routes: routes_of(self.entries@),
            reachable: Set::new(|h: u8| self.up@[h as int]),
            next_rank: self.next_rank,
        }
    }
}

impl Router {
    /// No two entries stand for the same destination and peer or have the
    /// same rank, and every label begins with the directive of its peer.
    pub closed spec fn wf(&self) -> bool {
        &&& unique_keys(self.entries@)
        &&& ranked(self.entries@, self.next_rank)
        &&& forall|i: int|
            0 <= i < self.entries@.len() ==> {
                let e = #[trigger] self.entries@[i];
                &&& e.label.wf()
                &&& e.next_hop != LOCAL
                &&& e.label@.len() >= 1
                &&& e.label@[0] == e.next_hop
            }
    }

    pub proof fn lemma_view_wf(&self)
        requires
            self.wf(),
        ensures
            self@.wf(),
    {
        assert forall|k: (Seq<u8>, u8)| #[trigger] self@.routes.contains_key(k) implies {
            &&& k.1 != LOCAL
            &&& is_path(self@.routes[k].path)
            &&& self@.routes[k].path.len() >= 1
            &&& self@.routes[k].path[0] == k.1
            &&& self@.routes[k].rank < self@.next_rank
        } by {
            let i = choose|i: int| has_key(self.entries@, k, i);
            lemma_routes_of(self.entries@, i);
            self.entries@[i].label.lemma_view_is_path();
        }
        assert forall|j: (Seq<u8>, u8), k: (Seq<u8>, u8)|
            #[trigger] self@.routes.contains_key(j) && #[trigger] self@.routes.contains_key(k)
                && self@.routes[j].rank == self@.routes[k].rank implies j == k by {
            let a = choose|a: int| has_key(self.entries@, j, a);
            let b = choose|b: int| has_key(self.entries@, k, b);
            lemma_routes_of(self.entries@, a);
            lemma_routes_of(self.entries@, b);
            if a < b {
                assert(self.entries@[a].rank != self.entries@[b].rank);
            }
            if b < a {
                assert(self.entries@[b].rank != self.entries@[a].rank);
            }
        }
    }

    /// The router of the node with address `own`: it knows no route and can
    /// reach no peer.
    pub fn new(own: &Address) -> (router: Router)
        ensures
            router.wf(),
            router@.own == own@,
            router@.routes == Map::<(Seq<u8>, u8), RouteInfo>::empty(),
            router@.reachable == Set::<u8>::empty(),
            router@.next_rank == 0,
    {
        let router = Router { own: *own, entries: Vec::new(), up: [false; 256], next_rank: 0 };
        proof {
            assert(router@.routes =~= Map::<(Seq<u8>, u8), RouteInfo>::empty());
            assert(router@.reachable =~= Set::<u8>::empty());
        }
        router
    }

    /// The address of this node.
    pub fn own_address(&self) -> (own: Address)
        ensures
            own@ == self@.own,
    {
        self.own
    }

    /// How many routes the table holds.
    pub fn len(&self) -> (n: usize)
        requires
            self.wf(),
        ensures
            n == self@.routes.dom().len(),
            self@.routes.dom().finite(),
    {
        proof {
            lemma_dom_len(self.entries@);
        }
        self.entries.len()
    }

    /// Notes whether the session with peer `hop` is established. Only routes
    /// through peers that can be reached are ever handed out.
    pub fn set_reachable(&mut self, hop: u8, reachable: bool)
        requires
            old(self).wf(),
        ensures
            final(self).wf(),
            final(self)@.own == old(self)@.own,
            final(self)@.routes == old(self)@.routes,
            final(self)@.next_rank == old(self)@.next_rank,
            final(self)@.reachable == if reachable {
                old(self)@.reachable.insert(hop)
            } else {
                old(self)@.reachable.remove(hop)
            },
    {
        self.up[hop as usize] = reachable;
        proof {
            if reachable {
                assert(self@.reachable =~= old(self)@.reachable.insert(hop));
            } else {
                assert(self@.reachable =~= old(self)@.reachable.remove(hop));
            }
        }
    }

    /// Whether peer `hop` is noted as reachable.
    pub fn is_reachable(&self, hop: u8) -> (reachable: bool)
        ensures
            reachable == self@.reachable.contains(hop),
    {
        self.up[hop as usize]
    }

    /// Where the entry for `destination` through `hop` stands, if there is one.
    fn find(&self, destination: &Address, hop: u8) -> (at: Option<usize>)
        requires
            self.wf(),
        ensures
            at is Some <==> self@.routes.contains_key((destination@, hop)),
            at matches Some(i) ==> i < self.entries@.len() && key_of(self.entries@[i as int]) == (
                destination@,
                hop,
            ) && self@.routes[(destination@, hop)] == info_of(self.entries@[i as int]),
    {
        let mut i: usize = 0;
        while i < self.entries.len()
            invariant
                i <= self.entries@.len(),
                self.wf(),
                forall|j: int| 0 <= j < i ==> key_of(#[trigger] self.entries@[j]) != (
                    destination@,
                    hop,
                ),
            decreases self.entries@.len() - i,
        {
            if self.entries[i].next_hop == hop && self.entries[i].destination == *destination {
                proof {
                    lemma_routes_of(self.entries@, i as int);
                }
                return Some(i);
            }
            i += 1;
        }
        proof {
            if self@.routes.contains_key((destination@, hop)) {
                let j = choose|j: int| has_key(self.entries@, (destination@, hop), j);
                assert(key_of(self.entries@[j]) == (destination@, hop));
            }
        }
        None
    }

    /// Merges a route advertisement from a direct peer. A route that the table
    /// does not have is inserted; one that it has through the same peer is
    /// replaced only by a strictly shorter one. Of two equally short routes
    /// the one known first stays the one to take: unless the advertisement
    /// brings a strictly shorter route than the one in use, `lookup` gives
    /// afterwards what it gave before.
    pub fn learn(&mut self, adv: &Advertisement, now: u64) -> (outcome: Learned)
        requires
            old(self).wf(),
            adv.label.wf(),
        ensures
            final(self).wf(),
            final(self)@ == old(self)@.learned(adv@, now),
            outcome == old(self)@.outcome(adv@),
            forall|d: Seq<u8>|
                (#[trigger] old(self)@.best_hop(d)) is Some && !old(self)@.shortens(adv@, d)
                    ==> final(self)@.best_hop(d) == old(self)@.best_hop(d),
    {
        proof {
            self.lemma_view_wf();
            assert forall|d: Seq<u8>|
                (#[trigger] self@.best_hop(d)) is Some && !self@.shortens(
                    adv@,
                    d,
                ) implies self@.learned(adv@, now).best_hop(d) == self@.best_hop(d) by {
                lemma_learn_keeps_route_in_use(self@, adv@, now, d);
            }
        }
        if adv.from == LOCAL || adv.destination == self.own || adv.metric == u32::MAX
            || self.next_rank == u64::MAX {
            return Learned::Rejected;
        }
        let label = match adv.label.prepend(adv.from) {
            None => {
                return Learned::Rejected;
            },
            Some(label) => label,
        };
        let ghost key = (adv.destination@, adv.from);
        let ghost before = self.entries@;
        match self.find(&adv.destination, adv.from) {
            None => {
                let entry = RouteEntry {
                    destination: adv.destination,
                    next_hop: adv.from,
                    label,
                    metric: adv.metric + 1,
                    learned_at: now,
                    rank: self.next_rank,
                };
                self.entries.push(entry);
                self.next_rank = self.next_rank + 1;
                proof {
                    assert forall|i: int, j: int| 0 <= i < j < self.entries@.len() implies key_of(
                        self.entries@[i],
                    ) != key_of(self.entries@[j]) by {
                        if j == before.len() {
                            assert(has_key(before, key, i) ==> routes_of(before).contains_key(
                                key,
                            ));
                        } else {
                            assert(key_of(before[i]) != key_of(before[j]));
                        }
                    }
                    lemma_after_put(before, self.entries@, before.len() as int, entry);
                    lemma_ranked_after_put(
                        before,
                        self.entries@,
                        before.len() as int,
                        entry,
                        old(self).next_rank,
                    );
                }
                Learned::Inserted
            },
            Some(i) => {
                let known = self.entries[i];
                let metric = adv.metric + 1;
                if metric < known.metric {
                    let entry = RouteEntry {
                        destination: adv.destination,
                        next_hop: adv.from,
                        label,
                        metric,
                        learned_at: now,
                        rank: self.next_rank,
                    };
                    self.entries[i] = entry;
                    self.next_rank = self.next_rank + 1;
                    proof {
                        lemma_after_put(before, self.entries@, i as int, entry);
                        lemma_ranked_after_put(
                            before,
                            self.entries@,
                            i as int,
                            entry,
                            old(self).next_rank,
                        );
                    }
                    Learned::Replaced
                } else if metric == known.metric && same_label(&label, &known.label) {
                    let entry = RouteEntry {
                        destination: adv.destination,
                        next_hop: adv.from,
                        label,
                        metric,
                        learned_at: now,
                        rank: known.rank,
                    };
                    self.entries[i] = entry;
                    proof {
                        lemma_after_put(before, self.entries@, i as int, entry);
                        assert(ranked(self.entries@, self.next_rank)) by {
                            assert forall|a: int|
                                0 <= a < self.entries@.len() implies (
                            #[trigger] self.entries@[a]).rank == before[a].rank by {}
                        }
                    }
                    Learned::Refreshed
                } else {
                    Learned::Kept
                }
            },
        }
    }

    /// Evicts every route over more than one hop that has not been confirmed
    /// for `max_age` or longer.
    pub fn evict_stale(&mut self, now: u64, max_age: u64)
        requires
            old(self).wf(),
        ensures
            final(self).wf(),
            final(self)@ == old(self)@.evicted(now, max_age),
    {
        let ghost before = self.entries@;
        let mut kept: Vec<RouteEntry> = Vec::new();
        let mut i: usize = 0;
        while i < self.entries.len()
            invariant
                i <= self.entries@.len(),
                self.entries@ == before,
                self.wf(),
                unique_keys(before),
                is_selection(before, i as int, kept@, now, max_age),
            decreases self.entries@.len() - i,
        {
            let e = self.entries[i];
            let ghost prior = kept@;
            if !(e.label.len() > 1 && now >= e.learned_at && now - e.learned_at >= max_age) {
                kept.push(e);
            }
            proof {
                lemma_selection_step(before, i as int, prior, kept@, now, max_age);
            }
            i += 1;
        }
        proof {
            lemma_selection_done(before, kept@, now, max_age);
            assert(self@.evicted(now, max_age).routes =~= routes_of(kept@));
            lemma_selection_ranked(before, kept@, now, max_age, self.next_rank);
            assert forall|j: int| 0 <= j < kept@.len() implies {
                let e = #[trigger] kept@[j];
                &&& e.label.wf()
                &&& e.next_hop != LOCAL
                &&& e.label@.len() >= 1
                &&& e.label@[0] == e.next_hop
            } by {
                assert(came_from(before, before.len() as int, kept@[j], now, max_age));
                let m = choose|m: int|
                    0 <= m < before.len() && before[m] == kept@[j] && is_fresh(
                        before[m],
                        now,
                        max_age,
                    );
                assert(before[m] == self.entries@[m]);
            }
        }
        self.entries = kept;
    }

    /// The best way to `destination` among the routes through peers that can
    /// be reached, or, with `any`, among all routes.
    fn search(&self, destination: &Address, any: bool) -> (found: Option<Route>)
        requires
            self.wf(),
        ensures
            destination@ == self@.own ==> (found matches Some(route) && route.next_hop == LOCAL
                && route.label.wf() && route.label@.len() == 0 && route.metric == 0),
            destination@ != self@.own ==> {
                &&& found is None <==> forall|h: u8|
                    !self@.widened(any).is_candidate(destination@, h)
                &&& found is None <==> self@.widened(any).best_hop(destination@) is None
                &&& found matches Some(route) ==> {
                    &&& self@.widened(any).is_best(destination@, route.next_hop)
                    &&& self@.widened(any).best_hop(destination@) == Some(route.next_hop)
                    &&& route.label.wf()
                    &&& route.label@ == self@.routes[(destination@, route.next_hop)].path
                    &&& route.metric == self@.routes[(destination@, route.next_hop)].metric
                    &&& route.next_hop != LOCAL
                    &&& route.label@.len() >= 1
                    &&& route.label@[0] == route.next_hop
                }
            },
    {
        if *destination == self.own {
            return Some(Route { next_hop: LOCAL, label: SwitchLabel::empty(), metric: 0 });
        }
        let mut best: Option<usize> = None;
        let mut i: usize = 0;
        while i < self.entries.len()
            invariant
                i <= self.entries@.len(),
                self.wf(),
                best matches Some(b) ==> b < i && self.is_usable(destination@, b as int, any),
                forall|j: int|
                    0 <= j < i && #[trigger] self.is_usable(destination@, j, any) ==> (best matches
                    Some(b) && preferred(
                        self.entries@[b as int].metric,
                        self.entries@[b as int].rank,
                        self.entries@[j].metric,
                        self.entries@[j].rank,
                    )),
            decreases self.entries@.len() - i,
        {
            let e = self.entries[i];
            if (any || self.up[e.next_hop as usize]) && e.destination == *destination {
                let better = match best {
                    None => true,
                    Some(b) => {
                        let known = self.entries[b];
                        e.metric < known.metric || (e.metric == known.metric && e.rank
                            < known.rank)
                    },
                };
                if better {
                    best = Some(i);
                }
            }
            i += 1;
        }
        match best {
            None => {
                proof {
                    assert forall|h: u8| !self@.widened(any).is_candidate(destination@, h) by {
                        if self@.widened(any).is_candidate(destination@, h) {
                            let j = choose|j: int| has_key(self.entries@, (destination@, h), j);
                            assert(self.is_usable(destination@, j, any));
                        }
                    }
                    if self@.widened(any).best_hop(destination@) is Some {
                        let h = choose|h: u8| self@.widened(any).is_best(destination@, h);
                        assert(self@.widened(any).is_candidate(destination@, h));
                    }
                }
                None
            },
            Some(b) => {
                let e = self.entries[b];
                proof {
                    lemma_routes_of(self.entries@, b as int);
                    assert forall|h: u8| #[trigger]
                        self@.widened(any).is_candidate(destination@, h) implies preferred(
                        self@.routes[(destination@, e.next_hop)].metric,
                        self@.routes[(destination@, e.next_hop)].rank,
                        self@.routes[(destination@, h)].metric,
                        self@.routes[(destination@, h)].rank,
                    ) by {
                        let j = choose|j: int| has_key(self.entries@, (destination@, h), j);
                        lemma_routes_of(self.entries@, j);
                        assert(self.is_usable(destination@, j, any));
                    }
                    assert(self@.widened(any).is_candidate(destination@, e.next_hop));
                    self.lemma_view_wf();
                    self@.widened(any).lemma_best_is_unique(destination@, e.next_hop, e.next_hop);
                }
                Some(Route { next_hop: e.next_hop, label: e.label, metric: e.metric })
            },
        }
    }

    /// The best known way to `destination`: of the routes through peers that
    /// can be reached the shortest, and of equally short ones the one that was
    /// known first. The node itself is always reached,
    /// with the empty label. There is no way where no such route is known.
    pub fn lookup(&self, destination: &Address) -> (found: Option<Route>)
        requires
            self.wf(),
        ensures
            destination@ == self@.own ==> (found matches Some(route) && route.next_hop == LOCAL
                && route.label.wf() && route.label@.len() == 0 && route.metric == 0),
            destination@ != self@.own ==> {
                &&& found is None <==> forall|h: u8| !self@.is_candidate(destination@, h)
                &&& found is None <==> self@.best_hop(destination@) is None
                &&& found matches Some(route) ==> {
                    &&& self@.is_best(destination@, route.next_hop)
                    &&& self@.best_hop(destination@) == Some(route.next_hop)
                    &&& route.label.wf()
                    &&& route.label@ == self@.routes[(destination@, route.next_hop)].path
                    &&& route.metric == self@.routes[(destination@, route.next_hop)].metric
                    &&& route.next_hop != LOCAL
                    &&& route.label@.len() >= 1
                    &&& route.label@[0] == route.next_hop
                }
            },
    {
        self.search(destination, false)
    }

    /// The best known way to `destination` whether or not its first hop can be
    /// reached by now: the way to try where `lookup` finds none.
    pub fn lookup_any(&self, destination: &Address) -> (found: Option<Route>)
        requires
            self.wf(),
        ensures
            destination@ == self@.own ==> (found matches Some(route) && route.next_hop == LOCAL
                && route.label.wf() && route.label@.len() == 0 && route.metric == 0),
            destination@ != self@.own ==> {
                &&& found is None <==> forall|h: u8| !self@.routes.contains_key((destination@, h))
                &&& found is None <==> self@.any_hop(destination@) is None
                &&& found matches Some(route) ==> {
                    &&& self@.any_hop(destination@) == Some(route.next_hop)
                    &&& self@.routes.contains_key((destination@, route.next_hop))
                    &&& route.label.wf()
                    &&& route.label@ == self@.routes[(destination@, route.next_hop)].path
                    &&& route.metric == self@.routes[(destination@, route.next_hop)].metric
                    &&& route.next_hop != LOCAL
                    &&& route.label@.len() >= 1
                    &&& route.label@[0] == route.next_hop
                }
            },
    {
        let found = self.search(destination, true);
        proof {
            if destination@ != self@.own {
                let w = self@.widened(true);
                assert forall|h: u8|
                    self@.routes.contains_key((destination@, h)) == #[trigger] w.is_candidate(
                        destination@,
                        h,
                    ) by {
                    assert(Set::<u8>::full().contains(h));
                }
                if let Some(route) = found {
                    assert(w.is_candidate(destination@, route.next_hop));
                } else {
                    assert forall|h: u8| !self@.routes.contains_key((destination@, h)) by {
                        assert(!w.is_candidate(destination@, h));
                    }
                }
            }
        }
        found
    }

    /// Every destination that the table has a route to, each at least once.
    pub fn destinations(&self) -> (known: Vec<Address>)
        requires
            self.wf(),
        ensures
            forall|i: int|
                0 <= i < known@.len() ==> self@.leads_to(#[trigger] known@[i]@),
            forall|d: Seq<u8>, h: u8| #[trigger]
                self@.routes.contains_key((d, h)) ==> listed(known@, d),
    {
        let mut known: Vec<Address> = Vec::new();
        let mut i: usize = 0;
        while i < self.entries.len()
            invariant
                i <= self.entries@.len(),
                self.wf(),
                known@.len() == i,
                forall|j: int|
                    0 <= j < i ==> (#[trigger] known@[j]) == self.entries@[j].destination,
            decreases self.entries@.len() - i,
        {
            known.push(self.entries[i].destination);
            i += 1;
        }
        proof {
            assert forall|j: int| 0 <= j < known@.len() implies self@.leads_to(
                #[trigger] known@[j]@,
            ) by {
                lemma_routes_of(self.entries@, j);
                assert(self@.routes.contains_key((known@[j]@, self.entries@[j].next_hop)));
            }
            assert forall|d: Seq<u8>, h: u8| #[trigger]
                self@.routes.contains_key((d, h)) implies listed(known@, d) by {
                let j = choose|j: int| has_key(self.entries@, (d, h), j);
                assert(known@[j]@ == d);
            }
        }
        known
    }

    /// Whether entry `i` leads to `destination` through a peer that can be reached.
    closed spec fn is_usable(&self, destination: Seq<u8>, i: int, any: bool) -> bool {
        &&& 0 <= i < self.entries@.len()
        &&& self.entries@[i].destination@ == destination
        &&& (any || self.up@[self.entries@[i].next_hop as int])
    }
}

/// Whether `destination` stands in `known`.
pub open spec fn listed(known: Seq<Address>, destination: Seq<u8>) -> bool {
    exists|i: int| 0 <= i < known.len() && (#[trigger] known[i])@ == destination
}

/// Whether two labels name the same path.
fn same_label(a: &SwitchLabel, b: &SwitchLabel) -> (same: bool)
    requires
        a.wf(),
        b.wf(),
    ensures
        same == (a@ == b@),
{
    let x = a.to_bytes();
    let y = b.to_bytes();
    proof {
        a.lemma_view_is_path();
        b.lemma_view_is_path();
        crate::label::lemma_decode_of_encode_path(a@);
        crate::label::lemma_decode_of_encode_path(b@);
    }
    crate::bytes::bytes_equal(x.as_slice(), y.as_slice())
}

/// Putting an entry with the next rank at place `at` keeps the ranks apart.
proof fn lemma_ranked_after_put(
    before: Seq<RouteEntry>,
    after: Seq<RouteEntry>,
    at: int,
    entry: RouteEntry,
    next: u64,
)
    requires
        ranked(before, next),
        next < u64::MAX,
        entry.rank == next,
        0 <= at <= before.len(),
        at < before.len() ==> after == before.update(at, entry),
        at == before.len() ==> after == before.push(entry),
    ensures
        ranked(after, (next + 1) as u64),
{
    assert forall|i: int| 0 <= i < after.len() implies (#[trigger] after[i]).rank < next + 1 by {
        if i != at {
            assert(after[i] == before[i]);
        }
    }
    assert forall|i: int, j: int| 0 <= i < j < after.len() implies (#[trigger] after[i]).rank != (
    #[trigger] after[j]).rank by {
        if i != at {
            assert(after[i] == before[i]);
        }
        if j != at {
            assert(after[j] == before[j]);
        }
    }
}

/// Putting `entry` at place `at`, over an entry with its key or at the end,
/// inserts its route into the map and changes nothing else.
proof fn lemma_after_put(
    before: Seq<RouteEntry>,
    after: Seq<RouteEntry>,
    at: int,
    entry: RouteEntry,
)
    requires
        unique_keys(before),
        unique_keys(after),
        0 <= at <= before.len(),
        at < before.len() ==> after == before.update(at, entry) && key_of(before[at]) == key_of(
            entry,
        ),
        at == before.len() ==> after == before.push(entry),
    ensures
        routes_of(after) == routes_of(before).insert(key_of(entry), info_of(entry)),
{
    let want = routes_of(before).insert(key_of(entry), info_of(entry));
    let have = routes_of(after);
    lemma_routes_of(after, at);
    assert forall|k: (Seq<u8>, u8)| #[trigger] have.contains_key(k) implies want.contains_key(k)
        && want[k] == have[k] by {
        let j = choose|j: int| has_key(after, k, j);
        lemma_routes_of(after, j);
        if j != at {
            assert(after[j] == before[j]);
            lemma_routes_of(before, j);
        }
    }
    assert forall|k: (Seq<u8>, u8)| #[trigger] want.contains_key(k) implies have.contains_key(
        k,
    ) by {
        if k != key_of(entry) {
            let j = choose|j: int| has_key(before, k, j);
            assert(j != at);
            assert(after[j] == before[j]);
            lemma_routes_of(after, j);
        }
    }
    assert(have =~= want);
}

spec fn is_fresh(e: RouteEntry, now: u64, max_age: u64) -> bool {
    !RouterView::is_stale(info_of(e), now, max_age)
}

/// `e` is a fresh entry among the first `n` of `before`.
spec fn came_from(before: Seq<RouteEntry>, n: int, e: RouteEntry, now: u64, max_age: u64) -> bool {
    exists|m: int|
        0 <= m < n && m < before.len() && before[m] == e && is_fresh(before[m], now, max_age)
}

spec fn holds(kept: Seq<RouteEntry>, e: RouteEntry) -> bool {
    exists|j: int| 0 <= j < kept.len() && kept[j] == e
}

/// `kept` holds exactly the fresh entries among the first `n` of `before`,
/// each once.
spec fn is_selection(
    before: Seq<RouteEntry>,
    n: int,
    kept: Seq<RouteEntry>,
    now: u64,
    max_age: u64,
) -> bool {
    &&& unique_keys(kept)
    &&& forall|j: int|
        0 <= j < kept.len() ==> came_from(before, n, #[trigger] kept[j], now, max_age)
    &&& forall|m: int|
        0 <= m < n && m < before.len() && is_fresh(#[trigger] before[m], now, max_age) ==> holds(
            kept,
            before[m],
        )
}

proof fn lemma_selection_step(
    before: Seq<RouteEntry>,
    n: int,
    prior: Seq<RouteEntry>,
    kept: Seq<RouteEntry>,
    now: u64,
    max_age: u64,
)
    requires
        unique_keys(before),
        0 <= n < before.len(),
        is_selection(before, n, prior, now, max_age),
        kept == if is_fresh(before[n], now, max_age) {
            prior.push(before[n])
        } else {
            prior
        },
    ensures
        is_selection(before, n + 1, kept, now, max_age),
{
    let fresh = is_fresh(before[n], now, max_age);
    assert forall|j: int| 0 <= j < kept.len() implies came_from(
        before,
        n + 1,
        #[trigger] kept[j],
        now,
        max_age,
    ) by {
        if j < prior.len() {
            assert(came_from(before, n, prior[j], now, max_age));
            let m = choose|m: int|
                0 <= m < n && m < before.len() && before[m] == prior[j] && is_fresh(
                    before[m],
                    now,
                    max_age,
                );
            assert(0 <= m < n + 1 && before[m] == kept[j]);
        } else {
            assert(0 <= n < n + 1 && before[n] == kept[j]);
        }
    }
    assert forall|m: int|
        0 <= m < n + 1 && m < before.len() && is_fresh(
            #[trigger] before[m],
            now,
            max_age,
        ) implies holds(kept, before[m]) by {
        if m < n {
            assert(holds(prior, before[m]));
            let j = choose|j: int| 0 <= j < prior.len() && prior[j] == before[m];
            assert(0 <= j < kept.len() && kept[j] == before[m]);
        } else {
            assert(kept[prior.len() as int] == before[m]);
        }
    }
    assert forall|a: int, b: int| 0 <= a < b < kept.len() implies key_of(kept[a]) != key_of(
        kept[b],
    ) by {
        if b < prior.len() {
            assert(key_of(prior[a]) != key_of(prior[b]));
        } else {
            assert(came_from(before, n, prior[a], now, max_age));
            let m = choose|m: int|
                0 <= m < n && m < before.len() && before[m] == prior[a] && is_fresh(
                    before[m],
                    now,
                    max_age,
                );
            assert(key_of(before[m]) != key_of(before[n]));
        }
    }
}

proof fn lemma_selection_ranked(
    before: Seq<RouteEntry>,
    kept: Seq<RouteEntry>,
    now: u64,
    max_age: u64,
    next: u64,
)
    requires
        unique_keys(before),
        ranked(before, next),
        is_selection(before, before.len() as int, kept, now, max_age),
    ensures
        ranked(kept, next),
{
    let n = before.len() as int;
    assert forall|i: int| 0 <= i < kept.len() implies (#[trigger] kept[i]).rank < next by {
        assert(came_from(before, n, kept[i], now, max_age));
        let m = choose|m: int|
            0 <= m < n && m < before.len() && before[m] == kept[i] && is_fresh(
                before[m],
                now,
                max_age,
            );
        assert(before[m].rank < next);
    }
    assert forall|i: int, j: int| 0 <= i < j < kept.len() implies (#[trigger] kept[i]).rank != (
    #[trigger] kept[j]).rank by {
        assert(came_from(before, n, kept[i], now, max_age));
        assert(came_from(before, n, kept[j], now, max_age));
        let a = choose|m: int|
            0 <= m < n && m < before.len() && before[m] == kept[i] && is_fresh(
                before[m],
                now,
                max_age,
            );
        let b = choose|m: int|
            0 <= m < n && m < before.len() && before[m] == kept[j] && is_fresh(
                before[m],
                now,
                max_age,
            );
        assert(key_of(kept[i]) != key_of(kept[j]));
        if a < b {
            assert(before[a].rank != before[b].rank);
        }
        if b < a {
            assert(before[b].rank != before[a].rank);
        }
    }
}

proof fn lemma_selection_done(
    before: Seq<RouteEntry>,
    kept: Seq<RouteEntry>,
    now: u64,
    max_age: u64,
)
    requires
        unique_keys(before),
        is_selection(before, before.len() as int, kept, now, max_age),
    ensures
        forall|k: (Seq<u8>, u8)| #[trigger]
            routes_of(kept).contains_key(k) <==> routes_of(before).contains_key(k)
                && !RouterView::is_stale(routes_of(before)[k], now, max_age),
        forall|k: (Seq<u8>, u8)| #[trigger]
            routes_of(kept).contains_key(k) ==> routes_of(kept)[k] == routes_of(before)[k],
{
    let n = before.len() as int;
    assert forall|k: (Seq<u8>, u8)| #[trigger] routes_of(kept).contains_key(k) implies routes_of(
        before,
    ).contains_key(k) && !RouterView::is_stale(routes_of(before)[k], now, max_age) && routes_of(
        kept,
    )[k] == routes_of(before)[k] by {
        let j = choose|j: int| has_key(kept, k, j);
        lemma_routes_of(kept, j);
        assert(came_from(before, n, kept[j], now, max_age));
        let m = choose|m: int|
            0 <= m < n && m < before.len() && before[m] == kept[j] && is_fresh(
                before[m],
                now,
                max_age,
            );
        lemma_routes_of(before, m);
    }
    assert forall|k: (Seq<u8>, u8)|
        routes_of(before).contains_key(k) && !RouterView::is_stale(
            routes_of(before)[k],
            now,
            max_age,
        ) implies #[trigger] routes_of(kept).contains_key(k) by {
        let m = choose|m: int| has_key(before, k, m);
        lemma_routes_of(before, m);
        assert(is_fresh(before[m], now, max_age));
        assert(holds(kept, before[m]));
        let j = choose|j: int| 0 <= j < kept.len() && kept[j] == before[m];
        lemma_routes_of(kept, j);
    }
}

/// A table without repeated keys holds as many routes as entries.
proof fn lemma_dom_len(entries: Seq<RouteEntry>)
    requires
        unique_keys(entries),
    ensures
        routes_of(entries).dom().finite(),
        routes_of(entries).dom().len() == entries.len(),
    decreases entries.len(),
{
    if entries.len() == 0 {
        assert(routes_of(entries).dom() =~= Set::<(Seq<u8>, u8)>::empty());
    } else {
        let rest = entries.drop_last();
        let last = entries.last();
        assert(unique_keys(rest)) by {
            assert forall|i: int, j: int| 0 <= i < j < rest.len() implies key_of(rest[i])
                != key_of(rest[j]) by {
                assert(key_of(entries[i]) != key_of(entries[j]));
            }
        }
        lemma_dom_len(rest);
        assert(entries == rest.push(last));
        lemma_after_put(rest, entries, rest.len() as int, last);
        assert(!routes_of(rest).dom().contains(key_of(last))) by {
            if routes_of(rest).dom().contains(key_of(last)) {
                let j = choose|j: int| has_key(rest, key_of(last), j);
                assert(key_of(entries[j]) != key_of(entries[entries.len() - 1]));
            }
        }
        assert(routes_of(entries).dom() =~= routes_of(rest).dom().insert(key_of(last)));
    }
}

} // verus!
