//! When the events that no device raises are due: the look at the clock, the
//! opening of sessions and the rounds of route advertisements.

use vstd::prelude::*;
use crate::dispatcher::{Event, EventView};
use crate::identity::Address;

verus! {

/// Milliseconds between two looks at the clock, unless the configuration
/// says otherwise.
pub const DEFAULT_TICK_INTERVAL: u64 = 1000;

/// Milliseconds between two rounds of route advertisements, unless the
/// configuration says otherwise.
pub const DEFAULT_ADVERTISE_INTERVAL: u64 = 10000;

/// The two intervals and the two deadlines of a node.
#[derive(Clone, Copy, Debug, PartialEq, Eq, Structural)]
pub struct Schedule {
    pub tick_interval: u64,
    pub advertise_interval: u64,
    /// When the clock is looked at next.
    pub next_tick: u64,
    /// When routes are advertised next.
    pub next_advertisement: u64,
}

/// The time `interval` after `now`, or the end of time where that is sooner.
pub open spec fn later(now: u64, interval: u64) -> u64 {
    if now + interval > u64::MAX {
        u64::MAX
    } else {
        (now + interval) as u64
    }
}

/// What a list of events is as plain values.
pub open spec fn events_view(events: Seq<Event>) -> Seq<EventView> {
    Seq::new(events.len(), |i: int| events[i]@)
}

/// One opening of a session for each of `peers` peers, in the order of their
/// directives.
pub open spec fn connects(peers: nat) -> Seq<EventView> {
    Seq::new(peers, |i: int| EventView::Connect((i + 1) as u8))
}

/// One advertisement to the peer that directive `to` names for each of
/// `destinations`, in their order.
pub open spec fn adverts_to(to: u8, destinations: Seq<Address>) -> Seq<EventView> {
    Seq::new(
        destinations.len(),
        |j: int| EventView::Advertise { to, destination: destinations[j]@ },
    )
}

/// The advertisements of one round: to each of `peers` peers in the order of
/// their directives, each of `destinations`.
pub open spec fn adverts(peers: nat, destinations: Seq<Address>) -> Seq<EventView>
    decreases peers,
{
    if peers == 0 {
        Seq::<EventView>::empty()
    } else {
        adverts((peers - 1) as nat, destinations) + adverts_to(peers as u8, destinations)
    }
}

impl Schedule {
    /// Whether it is time to look at the clock.
    pub open spec fn is_due(self, now: u64) -> bool {
        now >= self.next_tick
    }

    /// Whether it is time for a round of advertisements; they go out only
    /// together with a look at the clock.
    pub open spec fn advertises(self, now: u64) -> bool {
        self.is_due(now) && now >= self.next_advertisement
    }

    /// The events that are due at `now` for a node with `peers` peers that has
    /// `destinations` to advertise: a tick, then the opening of every session,
    /// then, where a round is due, every advertisement.
    pub open spec fn events_due(self, now: u64, peers: u8, destinations: Seq<Address>) -> Seq<
        EventView,
    > {
        if !self.is_due(now) {
            Seq::<EventView>::empty()
        } else if self.advertises(now) {
            seq![EventView::Tick] + connects(peers as nat) + adverts(peers as nat, destinations)
        } else {
            seq![EventView::Tick] + connects(peers as nat)
        }
    }

    /// The schedule once the events due at `now` were raised.
    pub open spec fn after(self, now: u64) -> Schedule {
        if !self.is_due(now) {
            self
        } else {
            Schedule {
                next_tick: later(now, self.tick_interval),
                next_advertisement: if self.advertises(now) {
                    later(now, self.advertise_interval)
                } else {
                    self.next_advertisement
                },
                ..self
            }
        }
    }

    /// A schedule on which everything is due at once.
    pub fn new(tick_interval: u64, advertise_interval: u64) -> (schedule: Schedule)
        ensures
            schedule == (Schedule {
                tick_interval,
                advertise_interval,
                next_tick: 0,
                next_advertisement: 0,
            }),
    {
        Schedule { tick_interval, advertise_interval, next_tick: 0, next_advertisement: 0 }
    }

    /// The events to raise at `now`, and the deadlines moved on.
    pub fn due(&mut self, now: u64, peers: u8, destinations: &[Address]) -> (events: Vec<Event>)
        ensures
            events_view(events@) == old(self).events_due(now, peers, destinations@),
            *final(self) == old(self).after(now),
    {
        let mut events: Vec<Event> = Vec::new();
        if now < self.next_tick {
            assert(events_view(events@) =~= Seq::<EventView>::empty());
            return events;
        }
        events.push(Event::Tick);
        let mut d: u8 = 0;
        while d < peers
            invariant
                d <= peers,
                events_view(events@) =~= seq![EventView::Tick] + connects(d as nat),
            decreases peers - d,
        {
            d += 1;
            let ghost prior = events@;
            events.push(Event::Connect(d));
            proof {
                assert(events_view(events@) =~= events_view(prior).push(EventView::Connect(d)));
                assert(connects(d as nat) =~= connects((d - 1) as nat).push(
                    EventView::Connect(d),
                ));
            }
        }
        if now >= self.next_advertisement {
            let ghost base = events_view(events@);
            let mut to: u8 = 0;
            while to < peers
                invariant
                    to <= peers,
                    events_view(events@) =~= base + adverts(to as nat, destinations@),
                decreases peers - to,
            {
                to += 1;
                let ghost row = events_view(events@);
                let mut j: usize = 0;
                while j < destinations.len()
                    invariant
                        j <= destinations@.len(),
                        events_view(events@) =~= row + adverts_to(to, destinations@).take(
                            j as int,
                        ),
                    decreases destinations@.len() - j,
                {
                    let ghost prior = events@;
                    events.push(Event::Advertise { to, destination: destinations[j] });
                    proof {
                        let told = EventView::Advertise {
                            to,
                            destination: destinations@[j as int]@,
                        };
                        assert(events_view(events@) =~= events_view(prior).push(told));
                        assert(adverts_to(to, destinations@).take(j + 1) =~= adverts_to(
                            to,
                            destinations@,
                        ).take(j as int).push(told));
                    }
                    j += 1;
                }
                proof {
                    assert(adverts_to(to, destinations@).take(j as int) =~= adverts_to(
                        to,
                        destinations@,
                    ));
                    assert(adverts(to as nat, destinations@) == adverts(
                        (to - 1) as nat,
                        destinations@,
                    ) + adverts_to(to, destinations@));
                }
            }
            self.next_advertisement = soon(now, self.advertise_interval);
        }
        self.next_tick = soon(now, self.tick_interval);
        events
    }
}

/// The time `interval` after `now`, or the end of time where that is sooner.
fn soon(now: u64, interval: u64) -> (at: u64)
    ensures
        at == later(now, interval),
{
    if interval > u64::MAX - now {
        u64::MAX
    } else {
        now + interval
    }
}

} // verus!
