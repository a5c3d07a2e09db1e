//! The replay window of one direction of a session.

use vstd::prelude::*;

verus! {

/// How far behind the highest accepted nonce a nonce may lag and still be accepted.
pub const REPLAY_WINDOW: u64 = 64;

/// Remembers which nonces were accepted, exactly for the last `REPLAY_WINDOW`
/// nonces up to the highest one and wholesale for everything older. Its view is
/// the set of nonces that it refuses.
#[derive(Clone, Copy, Debug)]
pub struct ReplayWindow {
    started: bool,
    highest: u64,
    slots: [bool; 64],
}

impl View for ReplayWindow {
    type V = Set<u64>;

    closed spec fn view(&self) -> Set<u64> {
        Set::new(|n: u64| self.refuses(n))
    }
}

/// What a window refuses once `nonce` has been recorded in a window that refused `refused`.
pub open spec fn refused_after(refused: Set<u64>, nonce: u64) -> Set<u64> {
    Set::new(|n: u64| refused.contains(n) || n == nonce || n + REPLAY_WINDOW <= nonce)
}

/// The slot that stands for nonce `n` while `n` is inside the window.
spec fn slot_of(n: u64) -> int {
    (n % REPLAY_WINDOW) as int
}

/// Two different nonces less than a window apart never share a slot.
proof fn lemma_distinct_slots(a: u64, b: u64)
    requires
        a != b,
        a - b < REPLAY_WINDOW,
        b - a < REPLAY_WINDOW,
    ensures
        slot_of(a) != slot_of(b),
{
}

impl ReplayWindow {
    closed spec fn refuses(&self, n: u64) -> bool {
        self.started && n <= self.highest && (self.highest - n >= REPLAY_WINDOW
            || self.slots@[slot_of(n)])
    }

    /// A window that has accepted nothing refuses nothing.
    pub fn new() -> (window: ReplayWindow)
        ensures
            window@ == Set::<u64>::empty(),
    {
        let window = ReplayWindow { started: false, highest: 0, slots: [false; 64] };
        assert(window@ =~= Set::<u64>::empty());
        window
    }

    /// Whether `nonce` would be accepted: it is neither older than the window
    /// nor already seen.
    pub fn accepts(&self, nonce: u64) -> (fresh: bool)
        ensures
            fresh == !self@.contains(nonce),
    {
        if !self.started || nonce > self.highest {
            true
        } else if self.highest - nonce >= REPLAY_WINDOW {
            false
        } else {
            !self.slots[(nonce % REPLAY_WINDOW) as usize]
        }
    }

    /// Records that `nonce` was accepted. From now on the window refuses it,
    /// everything it refused before, and everything that lags `REPLAY_WINDOW`
    /// or more behind it; it refuses nothing else. Recording a nonce that the
    /// window refuses changes nothing.
    pub fn record(&mut self, nonce: u64)
        ensures
            final(self)@ == if old(self)@.contains(nonce) {
                old(self)@
            } else {
                refused_after(old(self)@, nonce)
            },
    {
        if !self.accepts(nonce) {
            return;
        }
        let ghost before = *self;
        if !self.started {
            self.started = true;
            self.highest = nonce;
            self.slots = [false; 64];
            self.slots[(nonce % REPLAY_WINDOW) as usize] = true;
        } else if nonce > self.highest {
            let gap: u64 = nonce - self.highest;
            if gap >= REPLAY_WINDOW {
                self.slots = [false; 64];
            } else {
                let mut k: u64 = 1;
                while k < gap
                    invariant
                        1 <= k <= gap < REPLAY_WINDOW,
                        gap == nonce - before.highest,
                        self.started,
                        self.highest == before.highest,
                        forall|m: u64|
                            before.highest < m < before.highest + k ==> !self.slots@[slot_of(m)],
                        forall|n: u64|
                            n <= before.highest && n + REPLAY_WINDOW > before.highest + k
                                ==> self.slots@[slot_of(n)] == before.slots@[slot_of(n)],
                    decreases gap - k,
                {
                    let ghost prior = self.slots@;
                    let at: u64 = self.highest + k;
                    self.slots[(at % REPLAY_WINDOW) as usize] = false;
                    proof {
                        assert forall|m: u64|
                            before.highest < m < before.highest + k + 1 implies !self.slots@[slot_of(
                            m,
                        )] by {
                            if m != at {
                                lemma_distinct_slots(m, at);
                                assert(self.slots@[slot_of(m)] == prior[slot_of(m)]);
                            }
                        }
                        assert forall|n: u64|
                            n <= before.highest && n + REPLAY_WINDOW > before.highest + k
                                + 1 implies self.slots@[slot_of(n)]
                            == before.slots@[slot_of(n)] by {
                            lemma_distinct_slots(n, at);
                            assert(self.slots@[slot_of(n)] == prior[slot_of(n)]);
                        }
                    }
                    k += 1;
                }
            }
            let ghost cleared = self.slots@;
            self.slots[(nonce % REPLAY_WINDOW) as usize] = true;
            self.highest = nonce;
            proof {
                assert forall|n: u64|
                    self.refuses(n) == (before.refuses(n) || n == nonce || n + REPLAY_WINDOW
                        <= nonce) by {
                    if n < nonce && n + REPLAY_WINDOW > nonce {
                        lemma_distinct_slots(n, nonce);
                        assert(self.slots@[slot_of(n)] == cleared[slot_of(n)]);
                    }
                }
            }
        } else {
            self.slots[(nonce % REPLAY_WINDOW) as usize] = true;
            proof {
                assert forall|n: u64|
                    self.refuses(n) == (before.refuses(n) || n == nonce || n + REPLAY_WINDOW
                        <= nonce) by {
                    if n <= self.highest && self.highest - n < REPLAY_WINDOW && n != nonce {
                        lemma_distinct_slots(n, nonce);
                    }
                }
            }
        }
        proof {
            assert forall|n: u64|
                self@.contains(n) <==> (before@.contains(n) || n == nonce || n + REPLAY_WINDOW
                    <= nonce) by {
                assert(self.refuses(n) == (before.refuses(n) || n == nonce || n + REPLAY_WINDOW
                    <= nonce));
            }
            assert(self@ =~= refused_after(before@, nonce));
        }
    }
}

/// A nonce that was accepted once is refused from then on, whatever is
/// accepted after it: recording only ever adds to what is refused.
pub proof fn lemma_replay_stays_refused(refused: Set<u64>, accepted: u64, later: Seq<u64>)
    ensures
        refused_after(refused, accepted).contains(accepted),
        refused.subset_of(refused_after(refused, accepted)),
        later.fold_left(
            refused_after(refused, accepted),
            |r: Set<u64>, n: u64| refused_after(r, n),
        ).contains(accepted),
    decreases later.len(),
{
    let f = |r: Set<u64>, n: u64| refused_after(r, n);
    if later.len() > 0 {
        lemma_replay_stays_refused(refused, accepted, later.drop_last());
        let mid = later.drop_last().fold_left(refused_after(refused, accepted), f);
        assert(later.fold_left(refused_after(refused, accepted), f) == f(mid, later.last()));
    }
}

} // verus!
