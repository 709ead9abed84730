//! Counting in rounds: for each key, in how many rounds it came up. A key
//! that comes up twice in one round counts once for that round.

use std::collections::HashMap;
use vstd::prelude::*;

verus! {

/// What a tally holds.
pub struct TallyView {
    /// For each key that came up at all, the number of rounds in which it did.
    pub counts: Map<u64, nat>,
    /// The keys that came up in the round that is running.
    pub touched: Set<u64>,
    /// The number of rounds begun.
    pub round: nat,
    /// The keys that came up at all, each once, in the order in which they
    /// first did.
    pub keys: Seq<u64>,
}

impl TallyView {
    /// In how many rounds `key` came up.
    pub open spec fn count(self, key: u64) -> nat {
        if self.counts.contains_key(key) {
            self.counts[key]
        } else {
            0
        }
    }

    /// The tally after `key` came up in the running round.
    pub open spec fn hit(self, key: u64) -> TallyView {
        if self.touched.contains(key) {
            self
        } else {
            TallyView {
                counts: self.counts.insert(key, self.count(key) + 1),
                touched: self.touched.insert(key),
                round: self.round,
                keys: if self.counts.contains_key(key) {
                    self.keys
                } else {
                    self.keys.push(key)
                },
            }
        }
    }
}

/// A tally of `u64` keys.
pub struct Tally {
    slots: HashMap<u64, usize>,
    keys: Vec<u64>,
    hits: Vec<usize>,
    stamps: Vec<usize>,
    round: usize,
}

impl View for Tally {
    type V = TallyView;

    closed spec fn view(&self) -> TallyView {
        TallyView {
            counts: Map::new(
                |key: u64| self.slots@.contains_key(key),
                |key: u64| self.hits[self.slots@[key] as int] as nat,
            ),
            touched: Set::new(
                |key: u64|
                    self.slots@.contains_key(key) && self.stamps[self.slots@[key] as int]
                        == self.round,
            ),
            round: self.round as nat,
            keys: self.keys@,
        }
    }
}

impl Tally {
    /// The tally's invariant: each key has a slot of its own, which holds
    /// its hits, at least one, and the last round in which it came up, which
    /// is no less than its hits.
    pub closed spec fn inv(&self) -> bool {
        &&& self.keys.len() == self.hits.len()
        &&& self.keys.len() == self.stamps.len()
        &&& forall|key: u64| #[trigger]
            self.slots@.contains_key(key) ==> self.slots@[key] < self.keys.len()
                && self.keys[self.slots@[key] as int] == key
        &&& forall|m: int|
            0 <= m < self.keys.len() ==> self.slots@.contains_key(#[trigger] self.keys[m])
                && self.slots@[self.keys[m]] == m
        &&& forall|m: int|
            0 <= m < self.keys.len() ==> 1 <= #[trigger] self.hits[m] <= self.stamps[m]
        &&& forall|m: int| 0 <= m < self.keys.len() ==> #[trigger] self.stamps[m] <= self.round
    }

    /// A tally before its first round.
    pub fn new() -> (tally: Tally)
        ensures
            tally.inv(),
            tally@.counts == Map::<u64, nat>::empty(),
            tally@.touched == Set::<u64>::empty(),
            tally@.round == 0,
            tally@.keys == Seq::<u64>::empty(),
    {
        let tally = Tally {
            slots: HashMap::new(),
            keys: Vec::new(),
            hits: Vec::new(),
            stamps: Vec::new(),
            round: 0,
        };
        proof {
            assert(tally@.counts =~= Map::<u64, nat>::empty());
            assert(tally@.touched =~= Set::<u64>::empty());
        }
        tally
    }

    /// No key has more hits than there were rounds.
    pub proof fn lemma_bounded(&self, key: u64)
        requires
            self.inv(),
        ensures
            self@.count(key) <= self@.round,
            self@.counts.contains_key(key) ==> self@.count(key) >= 1,
    {
    }

    /// Begins the next round: no key has come up in it yet.
    pub fn next_round(&mut self)
        requires
            old(self).inv(),
            old(self)@.round < usize::MAX,
        ensures
            final(self).inv(),
            final(self)@.counts == old(self)@.counts,
            final(self)@.touched == Set::<u64>::empty(),
            final(self)@.round == old(self)@.round + 1,
            final(self)@.keys == old(self)@.keys,
    {
        self.round = self.round + 1;
        proof {
            assert(self@.counts =~= old(self)@.counts);
            assert(self@.touched =~= Set::<u64>::empty());
        }
    }

    /// Notes that `key` came up in the running round.
    pub fn hit(&mut self, key: u64)
        requires
            old(self).inv(),
            old(self)@.round > 0,
        ensures
            final(self).inv(),
            final(self)@ == old(self)@.hit(key),
    {
        let slot: Option<usize> = match self.slots.get(&key) {
            Some(slot) => Some(*slot),
            None => None,
        };
        match slot {
            Some(slot) => {
                if self.stamps[slot] != self.round {
                    let hits: usize = self.hits[slot];
                    self.hits.set(slot, hits + 1);
                    self.stamps.set(slot, self.round);
                }
            },
            None => {
                let slot: usize = self.keys.len();
                self.slots.insert(key, slot);
                self.keys.push(key);
                self.hits.push(1);
                self.stamps.push(self.round);
            },
        }
        proof {
            assert(self@.counts =~= old(self)@.hit(key).counts);
            assert(self@.touched =~= old(self)@.hit(key).touched);
        }
    }

    /// The keys that came up, each once, in the order in which they first
    /// did, and beside each the number of rounds in which it came up.
    pub fn into_counts(self) -> (counted: (Vec<u64>, Vec<usize>))
        requires
            self.inv(),
        ensures
            counted.0@ == self@.keys,
            counted.0.len() == counted.1.len(),
            counted.0@.no_duplicates(),
            forall|key: u64| counted.0@.contains(key) <==> self@.counts.contains_key(key),
            forall|m: int|
                0 <= m < counted.0.len() ==> self@.count(#[trigger] counted.0[m]) == counted.1[m],
    {
        proof {
            assert forall|key: u64| self.keys@.contains(key) <==> self@.counts.contains_key(
                key,
            ) by {
                if self@.counts.contains_key(key) {
                    assert(self.keys[self.slots@[key] as int] == key);
                }
            }
        }
        (self.keys, self.hits)
    }
}

} // verus!
